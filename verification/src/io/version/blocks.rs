//! The layout of roots and blocks, with rotations and colours either written
//! out or given as indices into dictionaries.

use vstd::prelude::*;
use crate::block::{Block, BlockView, MetadataView};
use crate::error::{at, CodecError, DecodeError};
use crate::io::table::{position, DedupTable};
use crate::io::types::{BlockRecord, SerializableBlock, SerializableRoot};
use crate::io::utils::{
    agrees, array3_bytes, array4_bytes, bit_of, counted_bytes, has_at, lemma_array3_roundtrip,
    lemma_array4_roundtrip, lemma_counted_roundtrip, lemma_has_at_concat, lemma_num_inverse,
    lemma_num_roundtrip, lemma_packed_byte_bit, lemma_string_roundtrip, lemma_unpack_pack_color,
    num_dec, num_enc, pack_bools, pack_color, packed_byte, parse_array3, parse_array4,
    parse_counted, parse_num, parse_string, read_array3, read_array4, read_num, read_string_7bit,
    read_vec, spec_pack_color, spec_unpack_color, string_bytes, truncated_color, unpack_color,
    write_array3, write_array4, write_num, write_string_7bit, write_vec, Record, LE,
    VARINT_MAX,
};
use crate::io::version::v0::{
    canonical_metadata, lemma_metadata_roundtrip, metadata_bytes, metadata_fits, parse_ints,
    parse_metadata, read_metadata, u16_bytes, write_metadata,
};
use vstd::utf8::encode_utf8;

verus! {

/// A root's record: its position and its rotation, three singles each.
impl Record for SerializableRoot {
    type Model = SerializableRoot;

    open spec fn model(&self) -> SerializableRoot {
        *self
    }

    open spec fn fits(v: SerializableRoot) -> bool {
        true
    }

    open spec fn layout(v: SerializableRoot) -> Seq<u8> {
        array3_bytes::<u32, LE>(v.position) + array3_bytes::<u32, LE>(v.rotation)
    }

    open spec fn parse(s: Seq<u8>, pos: int) -> Result<(SerializableRoot, int), DecodeError> {
        match parse_array3::<u32, LE>(s, pos) {
            Err(e) => Err(e),
            Ok((position, at1)) => match parse_array3::<u32, LE>(s, at1) {
                Err(e) => Err(e),
                Ok((rotation, at2)) => Ok((SerializableRoot { position, rotation }, at2)),
            },
        }
    }

    proof fn lemma_roundtrip(v: SerializableRoot, s: Seq<u8>, pos: int) {
        let a = array3_bytes::<u32, LE>(v.position);
        lemma_has_at_concat(s, pos, a, array3_bytes::<u32, LE>(v.rotation));
        lemma_array3_roundtrip::<u32, LE>(v.position, s, pos);
        lemma_array3_roundtrip::<u32, LE>(v.rotation, s, pos + a.len());
    }

    fn write(&self, out: &mut Vec<u8>) -> (r: Result<(), CodecError>) {
        write_root(out, self);
        Ok(())
    }

    fn read(data: &[u8], pos: usize) -> (r: Result<(Self, usize), DecodeError>) {
        read_root(data, pos)
    }
}

/// Writes a root's record.
pub fn write_root(out: &mut Vec<u8>, root: &SerializableRoot)
    ensures
        final(out)@ == old(out)@ + SerializableRoot::layout(*root),
{
    write_array3::<u32, LE>(out, &root.position);
    write_array3::<u32, LE>(out, &root.rotation);
    assert(out@ == old(out)@ + (array3_bytes::<u32, LE>(root.position) + array3_bytes::<u32, LE>(
        root.rotation,
    )));
}

/// Reads a root's record.
pub fn read_root(data: &[u8], pos: usize) -> (r: Result<(SerializableRoot, usize), DecodeError>)
    ensures
        agrees(r, SerializableRoot::parse(data@, pos as int)),
{
    let (position, at1) = match read_array3::<u32, LE>(data, pos) {
        Ok(x) => x,
        Err(e) => return Err(e),
    };
    let (rotation, at2) = match read_array3::<u32, LE>(data, at1) {
        Ok(x) => x,
        Err(e) => return Err(e),
    };
    Ok((SerializableRoot { position, rotation }, at2))
}

/// An entry of the dictionary of rotations is three 16-bit angles.
impl Record for [u16; 3] {
    type Model = [u16; 3];

    open spec fn model(&self) -> [u16; 3] {
        *self
    }

    open spec fn fits(v: [u16; 3]) -> bool {
        true
    }

    open spec fn layout(v: [u16; 3]) -> Seq<u8> {
        array3_bytes::<u16, LE>(v)
    }

    open spec fn parse(s: Seq<u8>, pos: int) -> Result<([u16; 3], int), DecodeError> {
        parse_array3::<u16, LE>(s, pos)
    }

    proof fn lemma_roundtrip(v: [u16; 3], s: Seq<u8>, pos: int) {
        lemma_array3_roundtrip::<u16, LE>(v, s, pos);
    }

    fn write(&self, out: &mut Vec<u8>) -> (r: Result<(), CodecError>) {
        write_array3::<u16, LE>(out, self);
        Ok(())
    }

    fn read(data: &[u8], pos: usize) -> (r: Result<(Self, usize), DecodeError>) {
        read_array3::<u16, LE>(data, pos)
    }
}

/// A rotation as one number: its three angles side by side, the first
/// lowest.
pub open spec fn rotation_key(rotation: [u16; 3]) -> u64 {
    (rotation[0] as u64) | ((rotation[1] as u64) << 16) | ((rotation[2] as u64) << 32)
}

/// The rotation that a number stands for.
pub open spec fn key_rotation(key: u64) -> [u16; 3] {
    [(key & 0xffff) as u16, ((key >> 16) & 0xffff) as u16, ((key >> 32) & 0xffff) as u16]
}

/// A rotation is got back from its number.
pub proof fn lemma_rotation_key(rotation: [u16; 3])
    ensures
        key_rotation(rotation_key(rotation)) == rotation,
{
    let (a, b, c) = (rotation[0], rotation[1], rotation[2]);
    let k = rotation_key(rotation);
    assert(k == (a as u64) | ((b as u64) << 16) | ((c as u64) << 32) ==> (k & 0xffff) as u16 == a
        && ((k >> 16) & 0xffff) as u16 == b && ((k >> 32) & 0xffff) as u16 == c) by (bit_vector);
    assert(key_rotation(k) =~= rotation);
}

/// The three colour channels of a colour with alpha.
pub open spec fn rgb_of(color: [u8; 4]) -> [u8; 3] {
    [color[0], color[1], color[2]]
}

/// A colour as the number that a dictionary holds for it: its RGB565 word.
pub open spec fn color_key(color: [u8; 4]) -> u64 {
    spec_pack_color(rgb_of(color)) as u64
}

/// The colour that a RGB565 word stands for, fully opaque.
pub open spec fn color_of_word(word: u16) -> [u8; 4] {
    let rgb = spec_unpack_color(word);
    [rgb[0], rgb[1], rgb[2], 0xFF]
}

/// A colour as it comes back from a dictionary: each channel truncated to
/// the bits that RGB565 keeps, and fully opaque.
pub open spec fn quantized_color(color: [u8; 4]) -> [u8; 4] {
    let rgb = truncated_color(rgb_of(color));
    [rgb[0], rgb[1], rgb[2], 0xFF]
}

/// The dictionaries that a writer holds: the rotations and the colours seen,
/// as numbers.
pub struct Tables {
    pub rotations: Seq<u64>,
    pub colors: Seq<u64>,
}

/// The dictionaries as they stand in a stream.
pub struct WireTables {
    pub rotations: Seq<[u16; 3]>,
    pub colors: Seq<u16>,
}

impl Tables {
    /// The dictionaries as they are written.
    pub open spec fn wire(self) -> WireTables {
        WireTables {
            rotations: self.rotations.map_values(|k: u64| key_rotation(k)),
            colors: self.colors.map_values(|k: u64| k as u16),
        }
    }
}

/// The rotation of a block on the wire: its three angles, or its index in
/// the dictionary.
pub open spec fn rotation_bytes(rotation: [u16; 3], tables: Option<Tables>) -> Seq<u8> {
    match tables {
        None => array3_bytes::<u16, LE>(rotation),
        Some(t) => u16_bytes(position(t.rotations, rotation_key(rotation)) as u16),
    }
}

/// Reads the rotation of a block: three angles, or an index that the
/// dictionary must hold.
pub open spec fn parse_rotation(s: Seq<u8>, pos: int, tables: Option<WireTables>) -> Result<
    ([u16; 3], int),
    DecodeError,
> {
    match tables {
        None => parse_array3::<u16, LE>(s, pos),
        Some(t) => match parse_num::<u16, LE>(s, pos) {
            Err(e) => Err(e),
            Ok((index, p)) => if index < t.rotations.len() {
                Ok((t.rotations[index as int], p))
            } else {
                Err(at(CodecError::FormatViolation, pos))
            },
        },
    }
}

/// The colour of a block on the wire: its four bytes, or the index of its
/// RGB565 word in the dictionary.
pub open spec fn color_bytes(color: [u8; 4], tables: Option<Tables>) -> Seq<u8> {
    match tables {
        None => array4_bytes::<u8, LE>(color),
        Some(t) => u16_bytes(position(t.colors, color_key(color)) as u16),
    }
}

/// Reads the colour of a block: four bytes, or an index that the dictionary
/// must hold.
pub open spec fn parse_color(s: Seq<u8>, pos: int, tables: Option<WireTables>) -> Result<
    ([u8; 4], int),
    DecodeError,
> {
    match tables {
        None => parse_array4::<u8, LE>(s, pos),
        Some(t) => match parse_num::<u16, LE>(s, pos) {
            Err(e) => Err(e),
            Ok((index, p)) => if index < t.colors.len() {
                Ok((color_of_word(t.colors[index as int]), p))
            } else {
                Err(at(CodecError::FormatViolation, pos))
            },
        },
    }
}

/// The wire form of tables, if there are any.
pub open spec fn wire_of(tables: Option<Tables>) -> Option<WireTables> {
    match tables {
        Some(t) => Some(t.wire()),
        None => None,
    }
}

/// A colour as it comes back: as it was, or quantized where it went through
/// a dictionary.
pub open spec fn canonical_color(color: [u8; 4], indexed: bool) -> [u8; 4] {
    if indexed {
        quantized_color(color)
    } else {
        color
    }
}

/// A rotation that was written is read back.
pub proof fn lemma_rotation_roundtrip(
    rotation: [u16; 3],
    tables: Option<Tables>,
    s: Seq<u8>,
    pos: int,
)
    requires
        tables matches Some(t) ==> t.rotations.contains(rotation_key(rotation))
            && t.rotations.len() <= 0x10000,
        has_at(s, pos, rotation_bytes(rotation, tables)),
    ensures
        parse_rotation(s, pos, wire_of(tables)) == Ok::<([u16; 3], int), DecodeError>(
            (rotation, pos + rotation_bytes(rotation, tables).len()),
        ),
{
    match tables {
        None => {
            lemma_array3_roundtrip::<u16, LE>(rotation, s, pos);
        },
        Some(t) => {
            let key = rotation_key(rotation);
            let i = position(t.rotations, key);
            lemma_num_roundtrip::<u16, LE>(i as u16, s, pos);
            lemma_rotation_key(rotation);
        },
    }
}

/// A colour that was written is read back: as it was, or quantized where it
/// went through a dictionary.
pub proof fn lemma_color_roundtrip(color: [u8; 4], tables: Option<Tables>, s: Seq<u8>, pos: int)
    requires
        tables matches Some(t) ==> t.colors.contains(color_key(color)) && t.colors.len()
            <= 0x10000,
        has_at(s, pos, color_bytes(color, tables)),
    ensures
        parse_color(s, pos, wire_of(tables)) == Ok::<([u8; 4], int), DecodeError>(
            (canonical_color(color, tables is Some), pos + color_bytes(color, tables).len()),
        ),
{
    match tables {
        None => {
            lemma_array4_roundtrip::<u8, LE>(color, s, pos);
        },
        Some(t) => {
            let key = color_key(color);
            let i = position(t.colors, key);
            lemma_num_roundtrip::<u16, LE>(i as u16, s, pos);
            lemma_unpack_pack_color(rgb_of(color));
            let w = spec_pack_color(rgb_of(color));
            assert((w as u64) as u16 == w) by (bit_vector);
            assert(color_of_word(w) =~= quantized_color(color));
        },
    }
}

/// The eight flags of a block's record, the first in the lowest bit: the
/// block has a name; it has connections; it has no metadata; it has no
/// colour; it has no load; it has no list of additional integers, which is
/// always so; its current enable state is stored unscaled; and a flag that
/// is never set.
pub open spec fn block_flags(b: BlockView<u16>) -> Seq<bool> {
    seq![
        b.name.len() > 0,
        b.connections.len() > 0,
        b.metadata is None,
        b.color is None,
        b.load is None,
        true,
        b.enable_state_unscaled,
        false,
    ]
}

/// The flag byte of a block's record.
pub open spec fn flag_byte(b: BlockView<u16>) -> u8 {
    packed_byte(block_flags(b), 0)
}

/// The bits of a flag byte are the flags.
pub proof fn lemma_flag_byte(b: BlockView<u16>)
    ensures
        bit_of(flag_byte(b), 0) == (b.name.len() > 0),
        bit_of(flag_byte(b), 1) == (b.connections.len() > 0),
        bit_of(flag_byte(b), 2) == (b.metadata is None),
        bit_of(flag_byte(b), 3) == (b.color is None),
        bit_of(flag_byte(b), 4) == (b.load is None),
        bit_of(flag_byte(b), 5),
        bit_of(flag_byte(b), 6) == b.enable_state_unscaled,
        !bit_of(flag_byte(b), 7),
{
    let flags = block_flags(b);
    lemma_packed_byte_bit(flags, 0, 0);
    lemma_packed_byte_bit(flags, 0, 1);
    lemma_packed_byte_bit(flags, 0, 2);
    lemma_packed_byte_bit(flags, 0, 3);
    lemma_packed_byte_bit(flags, 0, 4);
    lemma_packed_byte_bit(flags, 0, 5);
    lemma_packed_byte_bit(flags, 0, 6);
    lemma_packed_byte_bit(flags, 0, 7);
}

/// The fixed part at the start of a block's record.
#[derive(Debug, Clone, Copy)]
pub struct BlockHead {
    pub position: [u32; 3],
    pub rotation: [u16; 3],
    pub id: u8,
    pub root: u8,
    pub flags: u8,
    pub enable_state_current: u8,
}

/// The start of a block's record: position, rotation, type, the index of
/// the root in one byte, the flag byte, and the current enable state.
pub open spec fn block_head_bytes(b: BlockRecord, tables: Option<Tables>) -> Seq<u8> {
    array3_bytes::<u32, LE>(b.block.position) + rotation_bytes(b.block.rotation, tables) + seq![
        b.block.id,
    ] + seq![b.root as u8] + seq![flag_byte(b.block)] + seq![b.block.enable_state_current]
}

/// Reads the start of a block's record.
#[verifier::opaque]
pub open spec fn parse_block_head(s: Seq<u8>, pos: int, tables: Option<WireTables>) -> Result<
    (BlockHead, int),
    DecodeError,
> {
    match parse_array3::<u32, LE>(s, pos) {
        Err(e) => Err(e),
        Ok((position, at1)) => match parse_rotation(s, at1, tables) {
            Err(e) => Err(e),
            Ok((rotation, at2)) => match parse_num::<u8, LE>(s, at2) {
                Err(e) => Err(e),
                Ok((id, at3)) => match parse_num::<u8, LE>(s, at3) {
                    Err(e) => Err(e),
                    Ok((root, at4)) => match parse_num::<u8, LE>(s, at4) {
                        Err(e) => Err(e),
                        Ok((flags, at5)) => match parse_num::<u8, LE>(s, at5) {
                            Err(e) => Err(e),
                            Ok((enable_state_current, at6)) => Ok(
                                (
                                    BlockHead {
                                        position,
                                        rotation,
                                        id,
                                        root,
                                        flags,
                                        enable_state_current,
                                    },
                                    at6,
                                ),
                            ),
                        },
                    },
                },
            },
        },
    }
}

proof fn lemma_block_head_roundtrip(b: BlockRecord, tables: Option<Tables>, s: Seq<u8>, pos: int)
    requires
        block_head_fits(b, tables),
        tables_fit(tables),
        has_at(s, pos, block_head_bytes(b, tables)),
    ensures
        parse_block_head(s, pos, wire_of(tables)) == Ok::<(BlockHead, int), DecodeError>(
            (head_of(b), pos + block_head_bytes(b, tables).len()),
        ),
{
    reveal(parse_block_head);
    let a = array3_bytes::<u32, LE>(b.block.position);
    let r = rotation_bytes(b.block.rotation, tables);
    let c = seq![b.block.id];
    let d = seq![b.root as u8];
    let e = seq![flag_byte(b.block)];
    let f = seq![b.block.enable_state_current];
    lemma_has_at_concat(s, pos, a + r + c + d + e, f);
    lemma_has_at_concat(s, pos, a + r + c + d, e);
    lemma_has_at_concat(s, pos, a + r + c, d);
    lemma_has_at_concat(s, pos, a + r, c);
    lemma_has_at_concat(s, pos, a, r);
    lemma_array3_roundtrip::<u32, LE>(b.block.position, s, pos);
    lemma_rotation_roundtrip(b.block.rotation, tables, s, pos + a.len());
    let at2 = pos + a.len() + r.len();
    lemma_num_roundtrip::<u8, LE>(b.block.id, s, at2);
    lemma_num_roundtrip::<u8, LE>(b.root as u8, s, at2 + 1);
    lemma_num_roundtrip::<u8, LE>(flag_byte(b.block), s, at2 + 2);
    lemma_num_roundtrip::<u8, LE>(b.block.enable_state_current, s, at2 + 3);
}

/// What a block's record holds between its start and its metadata.
pub struct BlockLinks {
    pub name: Seq<char>,
    pub enable_state: u8,
    pub load: Option<u16>,
    pub connections: Seq<u16>,
}

/// A list of block indices with a 16-bit count in front.
pub open spec fn indices_bytes(indices: Seq<u16>) -> Seq<u8> {
    counted_bytes::<u16, LE, u16>(indices, num_enc::<u16, LE>())
}

/// Reads a list of block indices with a 16-bit count in front.
pub open spec fn parse_indices(s: Seq<u8>, pos: int) -> Result<(Seq<u16>, int), DecodeError> {
    parse_counted::<u16, LE, u16>(s, pos, num_dec::<u16, LE>())
}

/// The name of a block on the wire, if it has one.
pub open spec fn name_bytes(name: Seq<char>) -> Seq<u8> {
    if name.len() > 0 {
        string_bytes(name)
    } else {
        Seq::empty()
    }
}

/// The load of a block on the wire, if it has one.
pub open spec fn load_bytes(load: Option<u16>) -> Seq<u8> {
    match load {
        Some(index) => u16_bytes(index),
        None => Seq::empty(),
    }
}

/// The connections of a block on the wire, if it has any.
pub open spec fn connections_bytes(connections: Seq<u16>) -> Seq<u8> {
    if connections.len() > 0 {
        indices_bytes(connections)
    } else {
        Seq::empty()
    }
}

/// The middle of a block's record: the name if the block has one, the
/// target enable state, the load if there is one, and the connections if
/// there are any.
pub open spec fn block_links_bytes(b: BlockView<u16>) -> Seq<u8> {
    name_bytes(b.name) + seq![b.enable_state] + load_bytes(b.load) + connections_bytes(
        b.connections,
    )
}

/// Reads the name of a block, if flag zero says that it has one.
pub open spec fn parse_name(s: Seq<u8>, pos: int, flags: u8) -> Result<
    (Seq<char>, int),
    DecodeError,
> {
    if bit_of(flags, 0) {
        parse_string(s, pos)
    } else {
        Ok((Seq::empty(), pos))
    }
}

/// Reads the load of a block, unless flag four says that it has none.
pub open spec fn parse_load(s: Seq<u8>, pos: int, flags: u8) -> Result<
    (Option<u16>, int),
    DecodeError,
> {
    if !bit_of(flags, 4) {
        match parse_num::<u16, LE>(s, pos) {
            Err(e) => Err(e),
            Ok((index, p)) => Ok((Some(index), p)),
        }
    } else {
        Ok((None, pos))
    }
}

/// Reads the connections of a block, if flag one says that it has any.
pub open spec fn parse_connections(s: Seq<u8>, pos: int, flags: u8) -> Result<
    (Seq<u16>, int),
    DecodeError,
> {
    if bit_of(flags, 1) {
        parse_indices(s, pos)
    } else {
        Ok((Seq::empty(), pos))
    }
}

/// Reads the middle of a block's record.
#[verifier::opaque]
pub open spec fn parse_block_links(s: Seq<u8>, pos: int, flags: u8) -> Result<
    (BlockLinks, int),
    DecodeError,
> {
    match parse_name(s, pos, flags) {
        Err(e) => Err(e),
        Ok((name, at1)) => match parse_num::<u8, LE>(s, at1) {
            Err(e) => Err(e),
            Ok((enable_state, at2)) => match parse_load(s, at2, flags) {
                Err(e) => Err(e),
                Ok((load, at3)) => match parse_connections(s, at3, flags) {
                    Err(e) => Err(e),
                    Ok((connections, at4)) => Ok(
                        (BlockLinks { name, enable_state, load, connections }, at4),
                    ),
                },
            },
        },
    }
}

proof fn lemma_block_links_roundtrip(b: BlockView<u16>, s: Seq<u8>, pos: int)
    requires
        block_links_fit(b),
        has_at(s, pos, block_links_bytes(b)),
    ensures
        parse_block_links(s, pos, flag_byte(b)) == Ok::<(BlockLinks, int), DecodeError>(
            (links_of(b), pos + block_links_bytes(b).len()),
        ),
{
    reveal(parse_block_links);
    lemma_flag_byte(b);
    let n = name_bytes(b.name);
    let e = seq![b.enable_state];
    let l = load_bytes(b.load);
    let c = connections_bytes(b.connections);
    lemma_has_at_concat(s, pos, n + e + l, c);
    lemma_has_at_concat(s, pos, n + e, l);
    lemma_has_at_concat(s, pos, n, e);
    if b.name.len() > 0 {
        lemma_string_roundtrip(b.name, s, pos);
    } else {
        assert(b.name =~= Seq::<char>::empty());
    }
    let at1 = pos + n.len();
    lemma_num_roundtrip::<u8, LE>(b.enable_state, s, at1);
    match b.load {
        Some(index) => {
            lemma_num_roundtrip::<u16, LE>(index, s, at1 + 1);
        },
        None => {},
    }
    let at3 = at1 + 1 + l.len();
    if b.connections.len() > 0 {
        lemma_num_inverse::<u16, LE>();
        lemma_counted_roundtrip::<u16, LE, u16>(
            b.connections,
            |x: u16| true,
            num_enc::<u16, LE>(),
            num_dec::<u16, LE>(),
            s,
            at3,
        );
    } else {
        assert(b.connections =~= Seq::<u16>::empty());
    }
}

/// The metadata of a block on the wire, if it has any.
pub open spec fn optional_metadata_bytes(id: u8, metadata: Option<MetadataView<u16>>) -> Seq<u8> {
    match metadata {
        Some(m) => metadata_bytes(id, m),
        None => Seq::empty(),
    }
}

/// The colour of a block on the wire, if it has one.
pub open spec fn optional_color_bytes(color: Option<[u8; 4]>, tables: Option<Tables>) -> Seq<u8> {
    match color {
        Some(c) => color_bytes(c, tables),
        None => Seq::empty(),
    }
}

/// The end of a block's record: the metadata if there is any, and the
/// colour if there is one.
pub open spec fn block_tail_bytes(b: BlockView<u16>, tables: Option<Tables>) -> Seq<u8> {
    optional_metadata_bytes(b.id, b.metadata) + optional_color_bytes(b.color, tables)
}

/// Passes over the list of additional integers that old streams hold where
/// flag five is clear.
pub open spec fn skip_additional(s: Seq<u8>, pos: int, flags: u8) -> Result<int, DecodeError> {
    if !bit_of(flags, 5) {
        match parse_ints(s, pos) {
            Err(e) => Err(e),
            Ok((_, p)) => Ok(p),
        }
    } else {
        Ok(pos)
    }
}

/// Reads the metadata of a block, unless flag two says that it has none.
pub open spec fn parse_optional_metadata(s: Seq<u8>, pos: int, id: u8, flags: u8) -> Result<
    (Option<MetadataView<u16>>, int),
    DecodeError,
> {
    if !bit_of(flags, 2) {
        match parse_metadata(id, s, pos) {
            Err(e) => Err(e),
            Ok((m, p)) => Ok((Some(m), p)),
        }
    } else {
        Ok((None, pos))
    }
}

/// Reads the colour of a block, unless flag three says that it has none.
pub open spec fn parse_optional_color(
    s: Seq<u8>,
    pos: int,
    flags: u8,
    tables: Option<WireTables>,
) -> Result<(Option<[u8; 4]>, int), DecodeError> {
    if !bit_of(flags, 3) {
        match parse_color(s, pos, tables) {
            Err(e) => Err(e),
            Ok((c, p)) => Ok((Some(c), p)),
        }
    } else {
        Ok((None, pos))
    }
}

/// Reads a block's record. Behind the start come, as the flags say: the
/// name, the target enable state, the load, the connections, the additional
/// integers of old streams, the metadata and the colour.
#[verifier::opaque]
pub open spec fn parse_block(s: Seq<u8>, pos: int, tables: Option<WireTables>) -> Result<
    (BlockRecord, int),
    DecodeError,
> {
    match parse_block_head(s, pos, tables) {
        Err(e) => Err(e),
        Ok((head, at1)) => match parse_block_links(s, at1, head.flags) {
            Err(e) => Err(e),
            Ok((links, at2)) => match skip_additional(s, at2, head.flags) {
                Err(e) => Err(e),
                Ok(at3) => match parse_optional_metadata(s, at3, head.id, head.flags) {
                    Err(e) => Err(e),
                    Ok((metadata, at4)) => match parse_optional_color(s, at4, head.flags, tables) {
                        Err(e) => Err(e),
                        Ok((color, at5)) => Ok(
                            (
                                BlockRecord {
                                    root: head.root as u16,
                                    block: BlockView {
                                        position: head.position,
                                        rotation: head.rotation,
                                        id: head.id,
                                        metadata,
                                        name: links.name,
                                        enable_state: links.enable_state,
                                        enable_state_current: head.enable_state_current,
                                        enable_state_unscaled: bit_of(head.flags, 6),
                                        connections: links.connections,
                                        load: links.load,
                                        color,
                                    },
                                },
                                at5,
                            ),
                        ),
                    },
                },
            },
        },
    }
}

/// The bytes of a block's record.
#[verifier::opaque]
pub open spec fn block_bytes(b: BlockRecord, tables: Option<Tables>) -> Seq<u8> {
    block_head_bytes(b, tables) + block_links_bytes(b.block) + block_tail_bytes(b.block, tables)
}

/// Whether the layout can hold the block: the index of its root fits in one
/// byte, its lists are short enough for their counts, and the dictionaries,
/// where there are any, hold its rotation and its colour.
#[verifier::opaque]
pub open spec fn block_fits(b: BlockRecord, tables: Option<Tables>) -> bool {
    &&& block_head_fits(b, tables)
    &&& block_links_fit(b.block)
    &&& block_tail_fits(b.block, tables)
}

/// The index of the root fits in one byte, and the dictionary of rotations,
/// where there is one, holds the block's rotation.
pub open spec fn block_head_fits(b: BlockRecord, tables: Option<Tables>) -> bool {
    &&& b.root <= 0xff
    &&& tables matches Some(t) ==> t.rotations.contains(rotation_key(b.block.rotation))
}

/// The name is not too long for its length to be read back, and the
/// connections are not too many for a 16-bit count.
pub open spec fn block_links_fit(b: BlockView<u16>) -> bool {
    &&& encode_utf8(b.name).len() <= VARINT_MAX
    &&& b.connections.len() <= 0xffff
}

/// The metadata, where there is any, fits, and the dictionary of colours,
/// where there is one, holds the block's colour.
pub open spec fn block_tail_fits(b: BlockView<u16>, tables: Option<Tables>) -> bool {
    &&& b.metadata matches Some(m) ==> metadata_fits(b.id, m)
    &&& tables matches Some(t) ==> (b.color matches Some(c) ==> t.colors.contains(color_key(c)))
}

/// Whether the dictionaries can be written: neither holds more than 65536
/// values.
pub open spec fn tables_fit(tables: Option<Tables>) -> bool {
    tables matches Some(t) ==> t.rotations.len() <= 0x10000 && t.colors.len() <= 0x10000
}

/// A block as it comes back from the wire: the settings of its metadata in
/// their canonical form, and its colour quantized where dictionaries are in
/// use.
pub open spec fn canonical_block<R>(b: BlockView<R>, indexed: bool) -> BlockView<R> {
    BlockView {
        position: b.position,
        rotation: b.rotation,
        id: b.id,
        metadata: match b.metadata {
            Some(m) => Some(canonical_metadata(b.id, m)),
            None => None,
        },
        name: b.name,
        enable_state: b.enable_state,
        enable_state_current: b.enable_state_current,
        enable_state_unscaled: b.enable_state_unscaled,
        connections: b.connections,
        load: b.load,
        color: match b.color {
            Some(c) => Some(canonical_color(c, indexed)),
            None => None,
        },
    }
}

/// A block's record as it comes back from the wire.
pub open spec fn canonical_record(b: BlockRecord, indexed: bool) -> BlockRecord {
    BlockRecord { root: b.root, block: canonical_block(b.block, indexed) }
}

proof fn lemma_block_tail_roundtrip(b: BlockView<u16>, tables: Option<Tables>, s: Seq<u8>, pos: int)
    requires
        block_tail_fits(b, tables),
        tables_fit(tables),
        has_at(s, pos, block_tail_bytes(b, tables)),
    ensures
        skip_additional(s, pos, flag_byte(b)) == Ok::<int, DecodeError>(pos),
        parse_optional_metadata(s, pos, b.id, flag_byte(b)) == Ok::<
            (Option<MetadataView<u16>>, int),
            DecodeError,
        >(
            (
                canonical_block(b, tables is Some).metadata,
                pos + optional_metadata_bytes(b.id, b.metadata).len(),
            ),
        ),
        parse_optional_color(
            s,
            pos + optional_metadata_bytes(b.id, b.metadata).len(),
            flag_byte(b),
            wire_of(tables),
        ) == Ok::<(Option<[u8; 4]>, int), DecodeError>(
            (canonical_block(b, tables is Some).color, pos + block_tail_bytes(b, tables).len()),
        ),
{
    lemma_flag_byte(b);
    let m = optional_metadata_bytes(b.id, b.metadata);
    let c = optional_color_bytes(b.color, tables);
    lemma_has_at_concat(s, pos, m, c);
    match b.metadata {
        Some(meta) => {
            lemma_metadata_roundtrip(b.id, meta, s, pos);
        },
        None => {},
    }
    match b.color {
        Some(color) => {
            lemma_color_roundtrip(color, tables, s, pos + m.len());
        },
        None => {},
    }
}

/// The start of a block's record as it is read back.
pub open spec fn head_of(b: BlockRecord) -> BlockHead {
    BlockHead {
        position: b.block.position,
        rotation: b.block.rotation,
        id: b.block.id,
        root: b.root as u8,
        flags: flag_byte(b.block),
        enable_state_current: b.block.enable_state_current,
    }
}

/// The middle of a block's record as it is read back.
pub open spec fn links_of(b: BlockView<u16>) -> BlockLinks {
    BlockLinks {
        name: b.name,
        enable_state: b.enable_state,
        load: b.load,
        connections: b.connections,
    }
}

proof fn lemma_block_split(b: BlockRecord, tables: Option<Tables>, s: Seq<u8>, pos: int)
    requires
        has_at(s, pos, block_bytes(b, tables)),
    ensures
        ({
            let h = block_head_bytes(b, tables);
            let l = block_links_bytes(b.block);
            let t = block_tail_bytes(b.block, tables);
            &&& has_at(s, pos, h)
            &&& has_at(s, pos + h.len(), l)
            &&& has_at(s, pos + h.len() + l.len(), t)
            &&& block_bytes(b, tables).len() == h.len() + l.len() + t.len()
        }),
{
    reveal(block_bytes);
    let h = block_head_bytes(b, tables);
    let l = block_links_bytes(b.block);
    let t = block_tail_bytes(b.block, tables);
    lemma_has_at_concat(s, pos, h + l, t);
    lemma_has_at_concat(s, pos, h, l);
}

proof fn lemma_block_parts(b: BlockRecord, tables: Option<Tables>, s: Seq<u8>, pos: int)
    requires
        block_fits(b, tables),
        tables_fit(tables),
        has_at(s, pos, block_bytes(b, tables)),
    ensures
        ({
            let at1 = pos + block_head_bytes(b, tables).len();
            let at2 = at1 + block_links_bytes(b.block).len();
            let at3 = at2 + optional_metadata_bytes(b.block.id, b.block.metadata).len();
            let at4 = pos + block_bytes(b, tables).len();
            let flags = flag_byte(b.block);
            let canon = canonical_block(b.block, tables is Some);
            &&& parse_block_head(s, pos, wire_of(tables)) == Ok::<(BlockHead, int), DecodeError>(
                (head_of(b), at1),
            )
            &&& parse_block_links(s, at1, flags) == Ok::<(BlockLinks, int), DecodeError>(
                (links_of(b.block), at2),
            )
            &&& skip_additional(s, at2, flags) == Ok::<int, DecodeError>(at2)
            &&& parse_optional_metadata(s, at2, b.block.id, flags) == Ok::<
                (Option<MetadataView<u16>>, int),
                DecodeError,
            >((canon.metadata, at3))
            &&& parse_optional_color(s, at3, flags, wire_of(tables)) == Ok::<
                (Option<[u8; 4]>, int),
                DecodeError,
            >((canon.color, at4))
        }),
{
    reveal(block_fits);
    let h = block_head_bytes(b, tables);
    let l = block_links_bytes(b.block);
    let t = block_tail_bytes(b.block, tables);
    lemma_block_split(b, tables, s, pos);
    lemma_block_head_roundtrip(b, tables, s, pos);
    lemma_block_links_roundtrip(b.block, s, pos + h.len());
    lemma_block_tail_roundtrip(b.block, tables, s, pos + h.len() + l.len());
}

/// A block that fits, once written, is read back in its canonical form.
pub proof fn lemma_block_roundtrip(b: BlockRecord, tables: Option<Tables>, s: Seq<u8>, pos: int)
    requires
        block_fits(b, tables),
        tables_fit(tables),
        has_at(s, pos, block_bytes(b, tables)),
    ensures
        parse_block(s, pos, wire_of(tables)) == Ok::<(BlockRecord, int), DecodeError>(
            (canonical_record(b, tables is Some), pos + block_bytes(b, tables).len()),
        ),
{
    reveal(parse_block);
    reveal(block_fits);
    lemma_block_parts(b, tables, s, pos);
    lemma_flag_byte(b.block);
    assert((b.root as u8) as u16 == b.root);
}

/// The two dictionaries of a writer.
pub struct TableSet {
    pub rotations: DedupTable,
    pub colors: DedupTable,
}

impl View for TableSet {
    type V = Tables;

    open spec fn view(&self) -> Tables {
        Tables { rotations: self.rotations.dict(), colors: self.colors.dict() }
    }
}

impl TableSet {
    /// Both dictionaries are well-formed.
    pub open spec fn wf(&self) -> bool {
        self.rotations.wf() && self.colors.wf()
    }
}

/// The two dictionaries of a reader.
pub struct WireTableSet {
    pub rotations: Vec<[u16; 3]>,
    pub colors: Vec<u16>,
}

impl View for WireTableSet {
    type V = WireTables;

    open spec fn view(&self) -> WireTables {
        WireTables { rotations: self.rotations@, colors: self.colors@ }
    }
}

/// The tables that a writer was given, if any.
pub open spec fn tables_of(tables: Option<&TableSet>) -> Option<Tables> {
    match tables {
        Some(t) => Some(t@),
        None => None,
    }
}

/// The tables that a reader was given, if any.
pub open spec fn wire_tables_of(tables: Option<&WireTableSet>) -> Option<WireTables> {
    match tables {
        Some(t) => Some(t@),
        None => None,
    }
}

/// A rotation as one number.
pub fn rotation_key_of(rotation: &[u16; 3]) -> (key: u64)
    ensures
        key == rotation_key(*rotation),
{
    (rotation[0] as u64) | ((rotation[1] as u64) << 16) | ((rotation[2] as u64) << 32)
}

/// A colour as the number that a dictionary holds for it.
pub fn color_key_of(color: &[u8; 4]) -> (key: u64)
    ensures
        key == color_key(*color),
{
    pack_color([color[0], color[1], color[2]]) as u64
}

/// The colour that a RGB565 word stands for, fully opaque.
pub fn color_from_word(word: u16) -> (color: [u8; 4])
    ensures
        color == color_of_word(word),
{
    let rgb = unpack_color(word);
    [rgb[0], rgb[1], rgb[2], 0xFF]
}

fn write_rotation(out: &mut Vec<u8>, rotation: &[u16; 3], tables: Option<&TableSet>) -> (r: Result<
    (),
    CodecError,
>)
    requires
        tables matches Some(t) ==> t.wf(),
    ensures
        match r {
            Ok(()) => (tables matches Some(t) ==> t@.rotations.contains(rotation_key(*rotation)))
                && final(out)@ == old(out)@ + rotation_bytes(*rotation, tables_of(tables)),
            Err(e) => e == CodecError::FormatViolation && (tables matches Some(t)
                && !t@.rotations.contains(rotation_key(*rotation))),
        },
{
    match tables {
        None => {
            write_array3::<u16, LE>(out, rotation);
            Ok(())
        },
        Some(t) => match t.rotations.find(rotation_key_of(rotation)) {
            Some(index) => {
                proof {
                    t.rotations.lemma_distinct();
                }
                write_num::<u16, LE>(out, index);
                Ok(())
            },
            None => Err(CodecError::FormatViolation),
        },
    }
}

fn write_color(out: &mut Vec<u8>, color: &[u8; 4], tables: Option<&TableSet>) -> (r: Result<
    (),
    CodecError,
>)
    requires
        tables matches Some(t) ==> t.wf(),
    ensures
        match r {
            Ok(()) => (tables matches Some(t) ==> t@.colors.contains(color_key(*color)))
                && final(out)@ == old(out)@ + color_bytes(*color, tables_of(tables)),
            Err(e) => e == CodecError::FormatViolation && (tables matches Some(t)
                && !t@.colors.contains(color_key(*color))),
        },
{
    match tables {
        None => {
            write_array4::<u8, LE>(out, color);
            Ok(())
        },
        Some(t) => match t.colors.find(color_key_of(color)) {
            Some(index) => {
                proof {
                    t.colors.lemma_distinct();
                }
                write_num::<u16, LE>(out, index);
                Ok(())
            },
            None => Err(CodecError::FormatViolation),
        },
    }
}

fn read_rotation(data: &[u8], pos: usize, tables: Option<&WireTableSet>) -> (r: Result<
    ([u16; 3], usize),
    DecodeError,
>)
    ensures
        agrees(r, parse_rotation(data@, pos as int, wire_tables_of(tables))),
{
    match tables {
        None => read_array3::<u16, LE>(data, pos),
        Some(t) => match read_num::<u16, LE>(data, pos) {
            Err(e) => Err(e),
            Ok((index, next)) => if (index as usize) < t.rotations.len() {
                Ok((t.rotations[index as usize], next))
            } else {
                Err(DecodeError { kind: CodecError::FormatViolation, offset: pos })
            },
        },
    }
}

fn read_color(data: &[u8], pos: usize, tables: Option<&WireTableSet>) -> (r: Result<
    ([u8; 4], usize),
    DecodeError,
>)
    ensures
        agrees(r, parse_color(data@, pos as int, wire_tables_of(tables))),
{
    match tables {
        None => read_array4::<u8, LE>(data, pos),
        Some(t) => match read_num::<u16, LE>(data, pos) {
            Err(e) => Err(e),
            Ok((index, next)) => if (index as usize) < t.colors.len() {
                Ok((color_from_word(t.colors[index as usize]), next))
            } else {
                Err(DecodeError { kind: CodecError::FormatViolation, offset: pos })
            },
        },
    }
}

fn flag_byte_of(block: &Block<u16>) -> (byte: u8)
    ensures
        byte == flag_byte(block@),
{
    let flags: [bool; 8] = [
        !block.name.as_str().is_empty(),
        block.connections.len() > 0,
        block.metadata.is_none(),
        block.color.is_none(),
        block.load.is_none(),
        true,
        block.enable_state_unscaled,
        false,
    ];
    assert(flags@ =~= block_flags(block@));
    let bytes = pack_bools(flags.as_slice());
    bytes[0]
}

fn write_block_head(out: &mut Vec<u8>, block: &SerializableBlock, tables: Option<&TableSet>) -> (r:
    Result<(), CodecError>)
    requires
        tables matches Some(t) ==> t.wf(),
    ensures
        match r {
            Ok(()) => block_head_fits(block@, tables_of(tables)) && final(out)@ == old(out)@
                + block_head_bytes(block@, tables_of(tables)),
            Err(e) => e == CodecError::FormatViolation && !block_head_fits(
                block@,
                tables_of(tables),
            ),
        },
{
    if block.root > 0xff {
        return Err(CodecError::FormatViolation);
    }
    write_array3::<u32, LE>(out, &block.block.position);
    match write_rotation(out, &block.block.rotation, tables) {
        Ok(()) => {},
        Err(e) => return Err(e),
    }
    write_num::<u8, LE>(out, block.block.id);
    write_num::<u8, LE>(out, block.root as u8);
    write_num::<u8, LE>(out, flag_byte_of(&block.block));
    write_num::<u8, LE>(out, block.block.enable_state_current);
    assert(out@ == old(out)@ + block_head_bytes(block@, tables_of(tables)));
    Ok(())
}

fn write_block_links(out: &mut Vec<u8>, block: &Block<u16>) -> (r: Result<(), CodecError>)
    ensures
        match r {
            Ok(()) => block_links_fit(block@) && final(out)@ == old(out)@ + block_links_bytes(
                block@,
            ),
            Err(e) => e == CodecError::FormatViolation && !block_links_fit(block@),
        },
{
    if !block.name.as_str().is_empty() {
        match write_string_7bit(out, block.name.as_str()) {
            Ok(()) => {},
            Err(e) => return Err(e),
        }
    } else {
        assert(block@.name =~= Seq::<char>::empty());
        assert(encode_utf8(Seq::<char>::empty()) =~= Seq::<u8>::empty());
    }
    assert(out@ == old(out)@ + name_bytes(block@.name));
    write_num::<u8, LE>(out, block.enable_state);
    let ghost mid = out@;
    match block.load {
        Some(index) => {
            write_num::<u16, LE>(out, index);
        },
        None => {},
    }
    assert(out@ == mid + load_bytes(block@.load));
    let ghost mid2 = out@;
    if block.connections.len() > 0 {
        match write_vec::<u16, u16, LE>(out, block.connections.as_slice()) {
            Ok(()) => {},
            Err(e) => return Err(e),
        }
    }
    assert(out@ == mid2 + connections_bytes(block@.connections));
    assert(out@ == old(out)@ + block_links_bytes(block@));
    Ok(())
}

fn write_block_tail(out: &mut Vec<u8>, block: &Block<u16>, tables: Option<&TableSet>) -> (r: Result<
    (),
    CodecError,
>)
    requires
        tables matches Some(t) ==> t.wf(),
    ensures
        match r {
            Ok(()) => block_tail_fits(block@, tables_of(tables)) && final(out)@ == old(out)@
                + block_tail_bytes(block@, tables_of(tables)),
            Err(e) => e == CodecError::FormatViolation && !block_tail_fits(
                block@,
                tables_of(tables),
            ),
        },
{
    match &block.metadata {
        Some(m) => {
            match write_metadata(out, block.id, m) {
                Ok(()) => {},
                Err(e) => return Err(e),
            }
        },
        None => {},
    }
    assert(out@ == old(out)@ + optional_metadata_bytes(block@.id, block@.metadata));
    let ghost mid = out@;
    match &block.color {
        Some(c) => {
            match write_color(out, c, tables) {
                Ok(()) => {},
                Err(e) => return Err(e),
            }
        },
        None => {},
    }
    assert(out@ == mid + optional_color_bytes(block@.color, tables_of(tables)));
    assert(out@ == old(out)@ + block_tail_bytes(block@, tables_of(tables)));
    Ok(())
}

/// Writes a block's record, with its rotation and colour written out where
/// no dictionaries are given, and as their indices where they are.
pub fn write_block(out: &mut Vec<u8>, block: &SerializableBlock, tables: Option<&TableSet>) -> (r:
    Result<(), CodecError>)
    requires
        tables matches Some(t) ==> t.wf(),
    ensures
        match r {
            Ok(()) => block_fits(block@, tables_of(tables)) && final(out)@ == old(out)@
                + block_bytes(block@, tables_of(tables)),
            Err(e) => e == CodecError::FormatViolation && !block_fits(block@, tables_of(tables)),
        },
{
    proof {
        reveal(block_fits);
        reveal(block_bytes);
    }
    match write_block_head(out, block, tables) {
        Ok(()) => {},
        Err(e) => return Err(e),
    }
    match write_block_links(out, &block.block) {
        Ok(()) => {},
        Err(e) => return Err(e),
    }
    let ghost mid = out@;
    match write_block_tail(out, &block.block, tables) {
        Ok(()) => {},
        Err(e) => return Err(e),
    }
    assert(mid == old(out)@ + (block_head_bytes(block@, tables_of(tables)) + block_links_bytes(
        block@.block,
    )));
    assert(out@ == old(out)@ + block_bytes(block@, tables_of(tables)));
    Ok(())
}

fn flag_set(flags: u8, k: u8) -> (set: bool)
    requires
        k < 8,
    ensures
        set == bit_of(flags, k as int),
{
    (flags >> k) & 1 == 1
}

fn read_block_head(data: &[u8], pos: usize, tables: Option<&WireTableSet>) -> (r: Result<
    (BlockHead, usize),
    DecodeError,
>)
    ensures
        agrees(r, parse_block_head(data@, pos as int, wire_tables_of(tables))),
{
    proof {
        reveal(parse_block_head);
    }
    let (position, at1) = match read_array3::<u32, LE>(data, pos) {
        Ok(x) => x,
        Err(e) => return Err(e),
    };
    let (rotation, at2) = match read_rotation(data, at1, tables) {
        Ok(x) => x,
        Err(e) => return Err(e),
    };
    let (id, at3) = match read_num::<u8, LE>(data, at2) {
        Ok(x) => x,
        Err(e) => return Err(e),
    };
    let (root, at4) = match read_num::<u8, LE>(data, at3) {
        Ok(x) => x,
        Err(e) => return Err(e),
    };
    let (flags, at5) = match read_num::<u8, LE>(data, at4) {
        Ok(x) => x,
        Err(e) => return Err(e),
    };
    let (enable_state_current, at6) = match read_num::<u8, LE>(data, at5) {
        Ok(x) => x,
        Err(e) => return Err(e),
    };
    Ok((BlockHead { position, rotation, id, root, flags, enable_state_current }, at6))
}

/// The executable form of `BlockLinks`.
pub struct LinksPart {
    pub name: String,
    pub enable_state: u8,
    pub load: Option<u16>,
    pub connections: Vec<u16>,
}

impl View for LinksPart {
    type V = BlockLinks;

    open spec fn view(&self) -> BlockLinks {
        BlockLinks {
            name: self.name@,
            enable_state: self.enable_state,
            load: self.load,
            connections: self.connections@,
        }
    }
}

fn read_block_links(data: &[u8], pos: usize, flags: u8) -> (r: Result<
    (LinksPart, usize),
    DecodeError,
>)
    ensures
        match r {
            Ok((links, next)) => parse_block_links(data@, pos as int, flags) == Ok::<
                (BlockLinks, int),
                DecodeError,
            >((links@, next as int)),
            Err(e) => parse_block_links(data@, pos as int, flags) == Err::<
                (BlockLinks, int),
                DecodeError,
            >(e),
        },
{
    proof {
        reveal(parse_block_links);
    }
    let (name, at1) = if flag_set(flags, 0) {
        match read_string_7bit(data, pos) {
            Ok(x) => x,
            Err(e) => return Err(e),
        }
    } else {
        (String::new(), pos)
    };
    let (enable_state, at2) = match read_num::<u8, LE>(data, at1) {
        Ok(x) => x,
        Err(e) => return Err(e),
    };
    let (load, at3) = if !flag_set(flags, 4) {
        match read_num::<u16, LE>(data, at2) {
            Ok((index, next)) => (Some(index), next),
            Err(e) => return Err(e),
        }
    } else {
        (None, at2)
    };
    let (connections, at4) = if flag_set(flags, 1) {
        match read_vec::<u16, u16, LE>(data, at3) {
            Ok(x) => x,
            Err(e) => return Err(e),
        }
    } else {
        (Vec::new(), at3)
    };
    Ok((LinksPart { name, enable_state, load, connections }, at4))
}

/// Reads a block's record, with its rotation and colour taken from the
/// record where no dictionaries are given, and looked up where they are.
pub fn read_block(data: &[u8], pos: usize, tables: Option<&WireTableSet>) -> (r: Result<
    (SerializableBlock, usize),
    DecodeError,
>)
    ensures
        match r {
            Ok((block, next)) => parse_block(data@, pos as int, wire_tables_of(tables)) == Ok::<
                (BlockRecord, int),
                DecodeError,
            >((block@, next as int)),
            Err(e) => parse_block(data@, pos as int, wire_tables_of(tables)) == Err::<
                (BlockRecord, int),
                DecodeError,
            >(e),
        },
{
    proof {
        reveal(parse_block);
    }
    let (head, at1) = match read_block_head(data, pos, tables) {
        Ok(x) => x,
        Err(e) => return Err(e),
    };
    let (links, at2) = match read_block_links(data, at1, head.flags) {
        Ok(x) => x,
        Err(e) => return Err(e),
    };
    let at3 = if !flag_set(head.flags, 5) {
        match read_vec::<u16, i32, LE>(data, at2) {
            Ok((_, next)) => next,
            Err(e) => return Err(e),
        }
    } else {
        at2
    };
    let (metadata, at4) = if !flag_set(head.flags, 2) {
        match read_metadata(data, at3, head.id) {
            Ok((m, next)) => (Some(m), next),
            Err(e) => return Err(e),
        }
    } else {
        (None, at3)
    };
    let (color, at5) = if !flag_set(head.flags, 3) {
        match read_color(data, at4, tables) {
            Ok((c, next)) => (Some(c), next),
            Err(e) => return Err(e),
        }
    } else {
        (None, at4)
    };
    let block = SerializableBlock {
        root: head.root as u16,
        block: Block {
            position: head.position,
            rotation: head.rotation,
            id: head.id,
            metadata,
            name: links.name,
            enable_state: links.enable_state,
            enable_state_current: head.enable_state_current,
            enable_state_unscaled: flag_set(head.flags, 6),
            connections: links.connections,
            load: links.load,
            color,
        },
    };
    Ok((block, at5))
}

} // verus!
