//! Reading a stream into a building.

use vstd::prelude::*;
use crate::building::{Building, BuildingView};
use crate::error::{at, CodecError, DecodeError};
use crate::io::index::{owners_exist, unflatten};
use crate::io::types::{block_records, BlockRecord, BuildingRecord, SerializableBlock};
use crate::io::types::{SerializableBuilding, SerializableRoot};
use crate::io::utils::{
    all_good, has_at, inverse_up_to, items_bytes, lemma_counted_roundtrip, lemma_has_at_concat,
    lemma_items_roundtrip_up_to, lemma_num_inverse, lemma_num_roundtrip, lemma_parse_items_err,
    models, num_dec, num_enc, parse_items, parse_num, read_counted, read_num, read_vec, LE,
};
use crate::io::version::blocks::{
    block_fits, canonical_record, indices_bytes, lemma_block_roundtrip, parse_block, parse_indices,
    read_block, tables_fit, wire_of, wire_tables_of, Tables, WireTableSet, WireTables,
};
use crate::io::version::v0::{lemma_list_roundtrip, list_bytes, parse_list, u16_bytes};
use crate::io::write::{
    block_enc, lemma_block_fits_with_tables, lemma_tables_serve, stream_bytes, stream_fits,
    tables_bytes, tables_for, tables_in, uses_tables, LAST_PLAIN_VERSION,
};

verus! {

/// Reads the dictionaries of a version that has them.
pub open spec fn parse_tables(s: Seq<u8>, pos: int, version: u8) -> Result<
    (Option<WireTables>, int),
    DecodeError,
> {
    if uses_tables(version) {
        match parse_list::<[u16; 3]>(s, pos) {
            Err(e) => Err(e),
            Ok((rotations, at1)) => match parse_indices(s, at1) {
                Err(e) => Err(e),
                Ok((colors, at2)) => Ok((Some(WireTables { rotations, colors }), at2)),
            },
        }
    } else {
        Ok((None, pos))
    }
}

/// The reader of a block under given dictionaries, as a value.
pub open spec fn block_dec(tables: Option<WireTables>) -> spec_fn(Seq<u8>, int) -> Result<
    (BlockRecord, int),
    DecodeError,
> {
    |s: Seq<u8>, pos: int| parse_block(s, pos, tables)
}

/// Reads the number of blocks and then as many blocks.
pub open spec fn parse_blocks(s: Seq<u8>, pos: int, tables: Option<WireTables>) -> Result<
    (Seq<BlockRecord>, int),
    DecodeError,
> {
    match parse_num::<u16, LE>(s, pos) {
        Err(e) => Err(e),
        Ok((n, p)) => parse_items(s, p, n as nat, block_dec(tables)),
    }
}

/// Reads a building from the start of a stream: the version, the roots, the
/// dictionaries of a version that has them, and the blocks. What follows
/// the last block is not looked at.
#[verifier::opaque]
pub open spec fn parse_stream(s: Seq<u8>) -> Result<BuildingRecord, DecodeError> {
    match parse_num::<u8, LE>(s, 0) {
        Err(e) => Err(e),
        Ok((version, at1)) => match parse_list::<SerializableRoot>(s, at1) {
            Err(e) => Err(e),
            Ok((roots, at2)) => match parse_tables(s, at2, version) {
                Err(e) => Err(e),
                Ok((tables, at3)) => match parse_blocks(s, at3, tables) {
                    Err(e) => Err(e),
                    Ok((blocks, _)) => Ok(BuildingRecord { roots, blocks }),
                },
            },
        },
    }
}

/// A building as it comes back from a stream of the given version: every
/// block in its canonical form.
pub open spec fn canonical_stream(rec: BuildingRecord, version: u8) -> BuildingRecord {
    BuildingRecord {
        roots: rec.roots,
        blocks: rec.blocks.map_values(|b: BlockRecord| canonical_record(b, uses_tables(version))),
    }
}

proof fn lemma_tables_roundtrip(blocks: Seq<BlockRecord>, version: u8, s: Seq<u8>, pos: int)
    requires
        blocks.len() <= 0xffff,
        has_at(s, pos, tables_bytes(tables_in(blocks, version))),
    ensures
        parse_tables(s, pos, version) == Ok::<(Option<WireTables>, int), DecodeError>(
            (
                wire_of(tables_in(blocks, version)),
                pos + tables_bytes(tables_in(blocks, version)).len(),
            ),
        ),
        tables_fit(tables_in(blocks, version)),
{
    if uses_tables(version) {
        let t = tables_for(blocks);
        if blocks.len() > 0 {
            lemma_tables_serve(blocks, 0);
        } else {
            assert(crate::io::write::rotation_keys(blocks) =~= Seq::<u64>::empty());
        }
        let w = t.wire();
        let a = list_bytes::<[u16; 3]>(w.rotations);
        lemma_has_at_concat(s, pos, a, indices_bytes(w.colors));
        assert(all_good(w.rotations, crate::io::utils::record_fits::<[u16; 3]>()));
        lemma_list_roundtrip::<[u16; 3]>(w.rotations, s, pos);
        lemma_num_inverse::<u16, LE>();
        lemma_counted_roundtrip::<u16, LE, u16>(
            w.colors,
            |x: u16| true,
            num_enc::<u16, LE>(),
            num_dec::<u16, LE>(),
            s,
            pos + a.len(),
        );
    }
}

proof fn lemma_blocks_roundtrip(
    blocks: Seq<BlockRecord>,
    tables: Option<Tables>,
    s: Seq<u8>,
    pos: int,
)
    requires
        blocks.len() <= 0xffff,
        tables_fit(tables),
        forall|i: int| 0 <= i < blocks.len() ==> block_fits(#[trigger] blocks[i], tables),
        has_at(s, pos, u16_bytes(blocks.len() as u16) + items_bytes(blocks, block_enc(tables))),
    ensures
        parse_blocks(s, pos, wire_of(tables)) matches Ok((read, _)) && read == blocks.map_values(
            |b: BlockRecord| canonical_record(b, tables is Some),
        ),
{
    let count = u16_bytes(blocks.len() as u16);
    lemma_has_at_concat(s, pos, count, items_bytes(blocks, block_enc(tables)));
    lemma_num_roundtrip::<u16, LE>(blocks.len() as u16, s, pos);
    let good = |b: BlockRecord| block_fits(b, tables);
    let norm = |b: BlockRecord| canonical_record(b, tables is Some);
    let enc = block_enc(tables);
    let dec = block_dec(wire_of(tables));
    assert forall|v: BlockRecord, s2: Seq<u8>, at2: int|
        good(v) && #[trigger] has_at(s2, at2, enc(v)) implies #[trigger] dec(s2, at2) == Ok::<
        (BlockRecord, int),
        DecodeError,
    >((norm(v), at2 + enc(v).len())) by {
        lemma_block_roundtrip(v, tables, s2, at2);
    }
    assert(inverse_up_to(good, enc, dec, norm));
    lemma_items_roundtrip_up_to(blocks, good, enc, dec, norm, s, pos + 2);
}

/// A building that can be written, once written, is read back with every
/// block in its canonical form, whatever follows it in the stream.
pub proof fn lemma_stream_roundtrip(rec: BuildingRecord, version: u8, s: Seq<u8>)
    requires
        stream_fits(rec),
        has_at(s, 0, stream_bytes(rec, version)),
    ensures
        parse_stream(s) == Ok::<BuildingRecord, DecodeError>(canonical_stream(rec, version)),
{
    reveal(parse_stream);
    let tables = tables_in(rec.blocks, version);
    let a = seq![version];
    let b = list_bytes::<SerializableRoot>(rec.roots);
    let c = tables_bytes(tables);
    let d = u16_bytes(rec.blocks.len() as u16);
    let e = items_bytes(rec.blocks, block_enc(tables));
    assert(stream_bytes(rec, version) =~= (a + b + c) + (d + e));
    lemma_has_at_concat(s, 0, a + b + c, d + e);
    lemma_has_at_concat(s, 0, a + b, c);
    lemma_has_at_concat(s, 0, a, b);
    lemma_num_roundtrip::<u8, LE>(version, s, 0);
    assert(all_good(rec.roots, crate::io::utils::record_fits::<SerializableRoot>()));
    lemma_list_roundtrip::<SerializableRoot>(rec.roots, s, 1);
    lemma_tables_roundtrip(rec.blocks, version, s, 1 + b.len() as int);
    assert forall|i: int| 0 <= i < rec.blocks.len() implies block_fits(
        #[trigger] rec.blocks[i],
        tables,
    ) by {
        if uses_tables(version) {
            lemma_block_fits_with_tables(rec.blocks, i);
        }
    }
    lemma_blocks_roundtrip(rec.blocks, tables, s, 1 + b.len() as int + c.len() as int);
}

/// Reads the dictionaries of a version that has them.
pub fn read_tables(data: &[u8], pos: usize, version: u8) -> (r: Result<
    (Option<WireTableSet>, usize),
    DecodeError,
>)
    ensures
        match r {
            Ok((tables, next)) => parse_tables(data@, pos as int, version) == Ok::<
                (Option<WireTables>, int),
                DecodeError,
            >(
                (
                    match tables {
                        Some(t) => Some(t@),
                        None => None,
                    },
                    next as int,
                ),
            ),
            Err(e) => parse_tables(data@, pos as int, version) == Err::<
                (Option<WireTables>, int),
                DecodeError,
            >(e),
        },
{
    if version > LAST_PLAIN_VERSION {
        let (rotations, at1) = match read_counted::<u16, LE, [u16; 3]>(data, pos) {
            Ok(x) => x,
            Err(e) => return Err(e),
        };
        proof {
            assert(models::<[u16; 3]>(rotations@) =~= rotations@);
        }
        let (colors, at2) = match read_vec::<u16, u16, LE>(data, at1) {
            Ok(x) => x,
            Err(e) => return Err(e),
        };
        Ok((Some(WireTableSet { rotations, colors }), at2))
    } else {
        Ok((None, pos))
    }
}

/// Reads the number of blocks and then as many blocks.
fn read_blocks(data: &[u8], pos: usize, tables: Option<&WireTableSet>) -> (r: Result<
    (Vec<SerializableBlock>, usize),
    DecodeError,
>)
    ensures
        match r {
            Ok((blocks, next)) => parse_blocks(data@, pos as int, wire_tables_of(tables)) == Ok::<
                (Seq<BlockRecord>, int),
                DecodeError,
            >((block_records(blocks@), next as int)),
            Err(e) => parse_blocks(data@, pos as int, wire_tables_of(tables)) == Err::<
                (Seq<BlockRecord>, int),
                DecodeError,
            >(e),
        },
{
    let (n, start) = match read_num::<u16, LE>(data, pos) {
        Ok(x) => x,
        Err(e) => return Err(e),
    };
    let ghost dec = block_dec(wire_tables_of(tables));
    let mut blocks: Vec<SerializableBlock> = Vec::new();
    let mut at: usize = start;
    let mut i: u16 = 0;
    assert(block_records(blocks@) =~= Seq::<BlockRecord>::empty());
    while i < n
        invariant
            i <= n,
            dec == block_dec(wire_tables_of(tables)),
            parse_num::<u16, LE>(data@, pos as int) == Ok::<(u16, int), DecodeError>(
                (n, start as int),
            ),
            parse_items(data@, start as int, i as nat, dec) == Ok::<
                (Seq<BlockRecord>, int),
                DecodeError,
            >((block_records(blocks@), at as int)),
        decreases n - i,
    {
        match read_block(data, at, tables) {
            Ok((block, next)) => {
                proof {
                    assert(dec(data@, at as int) == parse_block(
                        data@,
                        at as int,
                        wire_tables_of(tables),
                    ));
                    assert(block_records(blocks@.push(block)) =~= block_records(blocks@).push(
                        block@,
                    ));
                }
                blocks.push(block);
                at = next;
            },
            Err(e) => {
                proof {
                    assert(dec(data@, at as int) == parse_block(
                        data@,
                        at as int,
                        wire_tables_of(tables),
                    ));
                    assert(parse_items(data@, start as int, (i + 1) as nat, dec) == Err::<
                        (Seq<BlockRecord>, int),
                        DecodeError,
                    >(e));
                    lemma_parse_items_err(data@, start as int, (i + 1) as nat, n as nat, dec);
                }
                return Err(e);
            },
        }
        i += 1;
    }
    Ok((blocks, at))
}

/// Reads a building as two flat lists from the start of a stream.
pub fn read_stream(data: &[u8]) -> (r: Result<SerializableBuilding, DecodeError>)
    ensures
        match r {
            Ok(flat) => parse_stream(data@) == Ok::<BuildingRecord, DecodeError>(flat@),
            Err(e) => parse_stream(data@) == Err::<BuildingRecord, DecodeError>(e),
        },
{
    proof {
        reveal(parse_stream);
    }
    let (version, at1) = match read_num::<u8, LE>(data, 0) {
        Ok(x) => x,
        Err(e) => return Err(e),
    };
    let (roots, at2) = match read_counted::<u16, LE, SerializableRoot>(data, at1) {
        Ok(x) => x,
        Err(e) => return Err(e),
    };
    proof {
        assert(models::<SerializableRoot>(roots@) =~= roots@);
    }
    let (tables, at3) = match read_tables(data, at2, version) {
        Ok(x) => x,
        Err(e) => return Err(e),
    };
    let (blocks, _) = match read_blocks(data, at3, tables.as_ref()) {
        Ok(x) => x,
        Err(e) => return Err(e),
    };
    Ok(SerializableBuilding { roots, blocks })
}

/// Reads a building from the start of a stream. A block that names a root
/// that the stream does not have is refused; a link with a number that no
/// block has is left out.
pub open spec fn parse_building(s: Seq<u8>) -> Result<BuildingView, DecodeError> {
    match parse_stream(s) {
        Err(e) => Err(e),
        Ok(rec) => if owners_exist(rec) {
            Ok(unflatten(rec))
        } else {
            Err(at(CodecError::FormatViolation, 0))
        },
    }
}

/// Reads a building from the start of `data`.
pub fn read_building(data: &[u8]) -> (r: Result<Building, DecodeError>)
    ensures
        match r {
            Ok(building) => parse_building(data@) == Ok::<BuildingView, DecodeError>(building@),
            Err(e) => parse_building(data@) == Err::<BuildingView, DecodeError>(e),
        },
{
    let flat = match read_stream(data) {
        Ok(flat) => flat,
        Err(e) => return Err(e),
    };
    match flat.into_building() {
        Ok(building) => Ok(building),
        Err(kind) => Err(DecodeError { kind, offset: 0 }),
    }
}

} // verus!
