use swsel::block::{Block, BlockMetadata, BlockRef, Gradient, TypeSettings};
use swsel::building::Building;
use swsel::error::{CodecError, DecodeError};
use swsel::io::read::{read_building, read_stream, read_tables};
use swsel::io::table::DedupTable;
use swsel::io::types::{SerializableBlock, SerializableBuilding, SerializableRoot};
use swsel::io::version::blocks::{
    color_from_word, color_key_of, read_block, read_root, rotation_key_of, write_block,
    write_root, TableSet, WireTableSet,
};
use swsel::io::version::v0::{
    read_gradient, read_metadata, read_type_settings, write_gradient, write_metadata,
    write_type_settings, MATH_BLOCK,
};
use swsel::io::write::{build_tables, write_building, write_stream, write_tables};
use swsel::root::Root;

fn link(root: usize, block: usize) -> BlockRef {
    BlockRef { root, block }
}

fn violation(offset: usize) -> DecodeError {
    DecodeError { kind: CodecError::FormatViolation, offset }
}

fn truncated(offset: usize) -> DecodeError {
    DecodeError { kind: CodecError::TruncatedStream, offset }
}

fn metadata<R>(fields: Vec<Vec<R>>, vectors: Vec<[u32; 3]>, settings: TypeSettings) -> BlockMetadata<R> {
    BlockMetadata::new(
        vec![true, false, true],
        vec![0x3F800000, 0x40000000],
        fields,
        vec![0, 7, 255],
        vec![[1, 2, 3, 4], [5, 6, 7, 8]],
        vec![
            Gradient {
                color_keys: vec![[9, 9, 9, 9], [8, 8, 8, 8]],
                color_time_keys: vec![0, 0x3F800000],
                alpha_keys: vec![0x3F000000],
                alpha_time_keys: vec![1, 2, 3],
            },
            Gradient {
                color_keys: Vec::new(),
                color_time_keys: Vec::new(),
                alpha_keys: Vec::new(),
                alpha_time_keys: Vec::new(),
            },
        ],
        vectors,
        settings,
    )
    .unwrap()
}

fn math_settings() -> TypeSettings {
    TypeSettings::MathBlock {
        function: "a*b+π".to_string(),
        incoming_connections_order: vec![2, 0, 1],
        slots: vec![0, 1],
    }
}

/// Two roots and five blocks, every link to a block of the building, every
/// block in the form that a stream without dictionaries gives back.
fn sample() -> Building {
    let mut a: Block = Block::with_id(1);
    a.position = [0x3F800000, 0x40000000, 0xC0400000];
    a.rotation = [0, 0x8000, 0xFFFF];
    a.name = "first".to_string();
    a.enable_state = 255;
    a.enable_state_current = 153;
    a.connections = vec![link(0, 1), link(1, 1), link(0, 0)];
    a.load = Some(link(1, 0));
    a.color = Some([0x12, 0x34, 0x56, 0x78]);
    let mut b: Block = Block::with_id(MATH_BLOCK);
    b.rotation = [1, 2, 3];
    b.enable_state_current = 3;
    b.enable_state_unscaled = true;
    b.metadata = Some(metadata(vec![vec![link(1, 1), link(0, 0)], vec![]], Vec::new(), math_settings()));
    let mut c: Block = Block::with_id(3);
    c.rotation = [1, 2, 3];
    c.color = Some([0x17, 0x37, 0x57, 0xFF]);
    c.metadata = Some(metadata(Vec::new(), vec![[1, 2, 3], [4, 5, 6]], TypeSettings::Empty));
    let mut first = Root::new();
    first.position = [1, 2, 3];
    first.rotation = [4, 5, 6];
    first.add_block(a);
    first.add_block(b);
    first.add_block(c);
    let mut d: Block = Block::with_id(4);
    d.name = "ünïcödé".to_string();
    d.load = Some(link(0, 2));
    d.metadata = Some(BlockMetadata::empty());
    let mut e: Block = Block::with_id(5);
    e.connections = vec![link(1, 1)];
    let mut second = Root::new();
    second.add_block(d);
    second.add_block(e);
    let mut building = Building::new();
    building.add_root(first);
    building.add_root(second);
    building
}

fn encode(building: &Building, version: u8) -> Vec<u8> {
    let mut out: Vec<u8> = Vec::new();
    assert_eq!(write_building(&mut out, building, version), Ok(()));
    out
}

#[test]
fn flag_byte_of_a_full_block() {
    let current = (0.6f32 * 255.0).round() as u8;
    assert_eq!(current, 153);
    let mut block: Block<u16> = Block::with_id(9);
    block.metadata = Some(BlockMetadata::empty());
    block.color = Some([1, 2, 3, 4]);
    block.load = Some(0);
    block.enable_state_current = current;
    let mut out: Vec<u8> = Vec::new();
    assert_eq!(write_block(&mut out, &SerializableBlock { root: 0, block }, None), Ok(()));
    assert_eq!(out[20], 0b0010_0000);
    assert_eq!(out[21], 153);
}

#[test]
fn flag_byte_has_a_bit_for_each_part() {
    let flags_of = |block: Block<u16>| {
        let mut out: Vec<u8> = Vec::new();
        assert_eq!(write_block(&mut out, &SerializableBlock { root: 0, block }, None), Ok(()));
        out[20]
    };
    assert_eq!(flags_of(Block::with_id(0)), 0b0011_1100);
    let mut named: Block<u16> = Block::with_id(0);
    named.name = "n".to_string();
    assert_eq!(flags_of(named), 0b0011_1101);
    let mut connected: Block<u16> = Block::with_id(0);
    connected.connections = vec![0];
    assert_eq!(flags_of(connected), 0b0011_1110);
    let mut with_metadata: Block<u16> = Block::with_id(0);
    with_metadata.metadata = Some(BlockMetadata::empty());
    assert_eq!(flags_of(with_metadata), 0b0011_1000);
    let mut colored: Block<u16> = Block::with_id(0);
    colored.color = Some([0, 0, 0, 0]);
    assert_eq!(flags_of(colored), 0b0011_0100);
    let mut loaded: Block<u16> = Block::with_id(0);
    loaded.load = Some(0);
    assert_eq!(flags_of(loaded), 0b0010_1100);
    let mut overdriven: Block<u16> = Block::with_id(0);
    overdriven.enable_state_unscaled = true;
    overdriven.enable_state_current = 2;
    assert_eq!(flags_of(overdriven), 0b0111_1100);
}

#[test]
fn small_building_byte_for_byte() {
    let mut block: Block = Block::with_id(5);
    block.position = [0x3F800000, 0, 0];
    block.rotation = [1, 2, 3];
    block.name = "ab".to_string();
    block.enable_state = 255;
    block.enable_state_current = 128;
    block.connections = vec![link(0, 0)];
    block.color = Some([10, 20, 30, 40]);
    let mut root = Root::new();
    root.position = [1, 2, 3];
    root.rotation = [4, 5, 6];
    root.add_block(block);
    let mut building = Building::new();
    building.add_root(root);
    let expected: Vec<u8> = vec![
        0, // version
        1, 0, // roots
        1, 0, 0, 0, 2, 0, 0, 0, 3, 0, 0, 0, // position
        4, 0, 0, 0, 5, 0, 0, 0, 6, 0, 0, 0, // rotation
        1, 0, // blocks
        0, 0, 0x80, 0x3F, 0, 0, 0, 0, 0, 0, 0, 0, // position
        1, 0, 2, 0, 3, 0, // rotation
        5, // type
        0, // root
        0b0011_0111, // flags
        128, // current enable state
        2, b'a', b'b', // name
        255, // enable state
        1, 0, 0, 0, // connections
        10, 20, 30, 40, // colour
    ];
    assert_eq!(encode(&building, 0), expected);
    assert_eq!(read_building(&expected), Ok(building));
    let mut later = expected.clone();
    later[0] = 5;
    assert_eq!(encode(&sample_of(&expected), 5), later);
}

fn sample_of(stream: &[u8]) -> Building {
    read_building(stream).unwrap()
}

#[test]
fn building_with_dictionaries_byte_for_byte() {
    let mut a: Block = Block::with_id(1);
    a.rotation = [1, 2, 3];
    a.color = Some([0x12, 0x34, 0x56, 0x78]);
    let mut b: Block = Block::with_id(2);
    b.rotation = [1, 2, 3];
    b.color = Some([0x17, 0x37, 0x57, 0xFF]);
    let mut c: Block = Block::with_id(3);
    c.rotation = [9, 9, 9];
    let mut root = Root::new();
    root.add_block(a);
    root.add_block(b);
    root.add_block(c);
    let mut building = Building::new();
    building.add_root(root);
    let mut expected: Vec<u8> = vec![6, 1, 0];
    expected.extend_from_slice(&[0u8; 24]);
    expected.extend_from_slice(&[2, 0, 1, 0, 2, 0, 3, 0, 9, 0, 9, 0, 9, 0]);
    expected.extend_from_slice(&[1, 0, 0xAA, 0x11]);
    expected.extend_from_slice(&[3, 0]);
    for (id, rotation, flags, color) in
        [(1u8, 0u8, 0b0011_0100u8, true), (2, 0, 0b0011_0100, true), (3, 1, 0b0011_1100, false)]
    {
        expected.extend_from_slice(&[0u8; 12]);
        expected.extend_from_slice(&[rotation, 0, id, 0, flags, 0, 0]);
        if color {
            expected.extend_from_slice(&[0, 0]);
        }
    }
    assert_eq!(encode(&building, 6), expected);
    let back = read_building(&expected).unwrap();
    assert_eq!(back.roots[0].blocks[0].rotation, [1, 2, 3]);
    assert_eq!(back.roots[0].blocks[1].rotation, [1, 2, 3]);
    assert_eq!(back.roots[0].blocks[2].rotation, [9, 9, 9]);
    assert_eq!(back.roots[0].blocks[0].color, Some([0x10, 0x34, 0x50, 0xFF]));
    assert_eq!(back.roots[0].blocks[1].color, Some([0x10, 0x34, 0x50, 0xFF]));
    assert_eq!(back.roots[0].blocks[2].color, None);
}

#[test]
fn roundtrip_without_dictionaries_is_exact() {
    for version in 0..=5u8 {
        let stream = encode(&sample(), version);
        assert_eq!(stream[0], version);
        assert_eq!(read_building(&stream), Ok(sample()));
    }
}

#[test]
fn roundtrip_with_dictionaries_quantizes_colours_only() {
    for version in [6u8, 7, 8, 255] {
        let stream = encode(&sample(), version);
        let back = read_building(&stream).unwrap();
        let mut expected = sample();
        expected.roots[0].blocks[0].color = Some([0x10, 0x34, 0x50, 0xFF]);
        expected.roots[0].blocks[2].color = Some([0x10, 0x34, 0x50, 0xFF]);
        assert_eq!(back, expected);
    }
}

#[test]
fn roundtrip_ignores_what_follows_the_building() {
    let mut stream = encode(&sample(), 0);
    stream.extend_from_slice(&[1, 2, 3, 4, 5]);
    assert_eq!(read_building(&stream), Ok(sample()));
}

#[test]
fn reencoding_what_was_read_changes_nothing() {
    for version in [0u8, 6] {
        let mut building = sample();
        building.roots[1].blocks[1].connections.push(link(7, 7));
        building.roots[0].blocks[0].load = Some(link(0, 3));
        let first = encode(&building, version);
        let once = read_building(&first).unwrap();
        let second = encode(&once, version);
        assert_eq!(second, first);
        assert_eq!(read_building(&second), Ok(once));
    }
}

#[test]
fn links_to_no_block_are_left_out_when_writing() {
    let mut building = sample();
    building.roots[0].blocks[0].connections = vec![link(0, 1), link(0, 3), link(2, 0), link(1, 1)];
    building.roots[0].blocks[0].load = Some(link(1, 2));
    building.roots[1].blocks[1].metadata =
        Some(metadata(vec![vec![link(5, 5), link(0, 0)], vec![link(1, 9)]], Vec::new(), TypeSettings::Empty));
    let back = read_building(&encode(&building, 0)).unwrap();
    assert_eq!(back.roots[0].blocks[0].connections, vec![link(0, 1), link(1, 1)]);
    assert_eq!(back.roots[0].blocks[0].load, None);
    let fields = back.roots[1].blocks[1].metadata.as_ref().unwrap().fields();
    assert_eq!(fields, &vec![vec![link(0, 0)], vec![]]);
}

#[test]
fn settings_come_back_as_the_type_has_them() {
    let mut math: Block = Block::with_id(MATH_BLOCK);
    math.metadata = Some(BlockMetadata::empty());
    let mut other: Block = Block::with_id(7);
    other.metadata = Some(metadata(Vec::new(), Vec::new(), math_settings()));
    let mut root = Root::new();
    root.add_block(math);
    root.add_block(other);
    let mut building = Building::new();
    building.add_root(root);
    let back = read_building(&encode(&building, 0)).unwrap();
    assert_eq!(
        back.roots[0].blocks[0].metadata.as_ref().unwrap().type_settings(),
        &TypeSettings::MathBlock {
            function: String::new(),
            incoming_connections_order: Vec::new(),
            slots: Vec::new(),
        }
    );
    assert_eq!(
        back.roots[0].blocks[1].metadata.as_ref().unwrap().type_settings(),
        &TypeSettings::Empty
    );
}

fn many_blocks(count: usize) -> Building {
    let mut root = Root::new();
    for _ in 0..count {
        root.add_block(Block::with_id(1));
    }
    let mut building = Building::new();
    building.add_root(root);
    building
}

fn many_roots(count: usize) -> Building {
    let mut building = Building::new();
    for _ in 0..count {
        building.add_root(Root::new());
    }
    building
}

#[test]
fn index_space_of_blocks_ends_at_65535() {
    for version in [0u8, 6] {
        let mut out: Vec<u8> = Vec::new();
        assert_eq!(write_building(&mut out, &many_blocks(65535), version), Ok(()));
        let stream = out.clone();
        assert_eq!(read_building(&stream), Ok(many_blocks(65535)));
        assert_eq!(
            write_building(&mut out, &many_blocks(65536), version),
            Err(CodecError::FormatViolation)
        );
        assert_eq!(
            write_building(&mut out, &many_blocks(65537), version),
            Err(CodecError::FormatViolation)
        );
        assert_eq!(out, stream);
    }
}

#[test]
fn index_space_of_roots_ends_at_65535() {
    let mut out: Vec<u8> = Vec::new();
    assert_eq!(write_building(&mut out, &many_roots(65535), 0), Ok(()));
    assert_eq!(out.len(), 1 + 2 + 65535 * 24 + 2);
    assert_eq!(read_building(&out), Ok(many_roots(65535)));
    assert_eq!(write_building(&mut out, &many_roots(65536), 0), Err(CodecError::FormatViolation));
    assert_eq!(write_building(&mut out, &many_roots(65537), 0), Err(CodecError::FormatViolation));
}

#[test]
fn counts_are_written_low_byte_first() {
    let stream = encode(&many_roots(258), 0);
    assert_eq!(&stream[1..3], &[0x02, 0x01]);
    assert_eq!(&stream[stream.len() - 2..], &[0, 0]);
    let stream = encode(&many_blocks(0x0304), 6);
    let blocks_at = 1 + 2 + 24 + (2 + 6) + 2;
    assert_eq!(&stream[blocks_at..blocks_at + 2], &[0x04, 0x03]);
    assert_eq!(read_building(&stream), Ok(many_blocks(0x0304)));
}

#[test]
fn blocks_of_many_roots_share_one_index_space() {
    let mut building = Building::new();
    for _ in 0..2 {
        let mut root = Root::new();
        for _ in 0..32768 {
            root.add_block(Block::with_id(1));
        }
        building.add_root(root);
    }
    let mut out: Vec<u8> = Vec::new();
    assert_eq!(write_building(&mut out, &building, 0), Err(CodecError::FormatViolation));
    assert!(out.is_empty());
    building.roots[1].blocks.pop();
    assert_eq!(write_building(&mut out, &building, 0), Ok(()));
}

#[test]
fn root_of_a_block_must_fit_in_a_byte() {
    let mut building = many_roots(257);
    building.roots[255].add_block(Block::with_id(1));
    let stream = encode(&building, 0);
    assert_eq!(read_building(&stream), Ok(building));
    let mut building = many_roots(257);
    building.roots[256].add_block(Block::with_id(1));
    let mut out: Vec<u8> = vec![9];
    assert_eq!(write_building(&mut out, &building, 0), Err(CodecError::FormatViolation));
    assert_eq!(out, vec![9]);
}

fn plain_block_bytes(root: u8, flags: u8, tail: &[u8]) -> Vec<u8> {
    let mut bytes = vec![0u8; 18];
    bytes.extend_from_slice(&[1, root, flags, 0]);
    bytes.extend_from_slice(tail);
    bytes
}

fn stream_of(roots: u16, blocks: &[Vec<u8>]) -> Vec<u8> {
    let mut stream = vec![0u8];
    stream.extend_from_slice(&roots.to_le_bytes());
    for _ in 0..roots {
        stream.extend_from_slice(&[0u8; 24]);
    }
    stream.extend_from_slice(&(blocks.len() as u16).to_le_bytes());
    for block in blocks {
        stream.extend_from_slice(block);
    }
    stream
}

#[test]
fn connection_past_the_last_block_is_dropped() {
    // One block with the connections 0 (itself), 1 and 65535 (no such blocks).
    let block = plain_block_bytes(0, 0b0011_1110, &[0, 3, 0, 0, 0, 1, 0, 0xFF, 0xFF]);
    let building = read_building(&stream_of(1, &[block])).unwrap();
    assert_eq!(building.roots[0].blocks[0].connections, vec![link(0, 0)]);
    // A load that points past the last block is dropped too.
    let block = plain_block_bytes(0, 0b0010_1100, &[0, 1, 0]);
    let building = read_building(&stream_of(1, &[block])).unwrap();
    assert_eq!(building.roots[0].blocks[0].load, None);
    let block = plain_block_bytes(0, 0b0010_1100, &[0, 0, 0]);
    let building = read_building(&stream_of(1, &[block])).unwrap();
    assert_eq!(building.roots[0].blocks[0].load, Some(link(0, 0)));
}

#[test]
fn forward_links_are_resolved() {
    // Block 0 links to block 2, which is read later and is the second block
    // of root 1.
    let first = plain_block_bytes(0, 0b0011_1110, &[0, 1, 0, 2, 0]);
    let second = plain_block_bytes(1, 0b0011_1100, &[0]);
    let third = plain_block_bytes(1, 0b0011_1100, &[0]);
    let building = read_building(&stream_of(2, &[first, second, third])).unwrap();
    assert_eq!(building.roots[0].blocks[0].connections, vec![link(1, 1)]);
    assert_eq!(building.roots[1].blocks.len(), 2);
}

#[test]
fn blocks_of_a_stream_go_to_the_roots_they_name() {
    let of_root = |root: u8| plain_block_bytes(root, 0b0011_1110, &[0, 2, 0, 0, 0, 3, 0]);
    let stream = stream_of(3, &[of_root(2), of_root(0), of_root(2), of_root(0)]);
    let building = read_building(&stream).unwrap();
    assert_eq!(building.count_roots_and_blocks(), [3, 4]);
    assert_eq!(building.roots[0].blocks.len(), 2);
    assert_eq!(building.roots[1].blocks.len(), 0);
    assert_eq!(building.roots[2].blocks.len(), 2);
    // Number 0 is the first block of root 2, number 3 the second of root 0.
    for root in [0usize, 2] {
        for block in &building.roots[root].blocks {
            assert_eq!(block.connections, vec![link(2, 0), link(0, 1)]);
        }
    }
}

#[test]
fn block_of_a_root_that_is_not_there_is_refused() {
    let block = plain_block_bytes(1, 0b0011_1100, &[0]);
    assert_eq!(read_building(&stream_of(1, &[block.clone()])), Err(violation(0)));
    assert!(read_building(&stream_of(2, &[block])).is_ok());
}

#[test]
fn additional_integers_of_old_streams_are_passed_over() {
    // Flag five clear: a list of two integers stands before the colour.
    let mut tail = vec![0u8, 2, 0];
    tail.extend_from_slice(&[1, 0, 0, 0, 0xFF, 0xFF, 0xFF, 0xFF]);
    tail.extend_from_slice(&[1, 2, 3, 4]);
    let block = plain_block_bytes(0, 0b0001_0100, &tail);
    let building = read_building(&stream_of(1, &[block])).unwrap();
    assert_eq!(building.roots[0].blocks[0].color, Some([1, 2, 3, 4]));
    // Written again, the list is gone and the flag is set.
    let stream = encode(&building, 0);
    assert_eq!(stream[1 + 2 + 24 + 2 + 20], 0b0011_0100);
    // A list that is cut short is an error.
    let block = plain_block_bytes(0, 0b0001_1100, &[0, 2, 0, 1, 0, 0, 0]);
    let stream = stream_of(1, &[block]);
    let end = stream.len();
    assert_eq!(read_building(&stream), Err(truncated(end)));
}

#[test]
fn reserved_flag_is_not_kept() {
    let block = plain_block_bytes(0, 0b1011_1100, &[0]);
    let building = read_building(&stream_of(1, &[block])).unwrap();
    assert_eq!(building.roots[0].blocks[0], Block::with_id(1));
    assert_eq!(encode(&building, 0)[1 + 2 + 24 + 2 + 20], 0b0011_1100);
}

#[test]
fn unscaled_enable_state_is_kept_apart() {
    let mut block = plain_block_bytes(0, 0b0111_1100, &[77]);
    block[21] = 200;
    let building = read_building(&stream_of(1, &[block])).unwrap();
    let read = &building.roots[0].blocks[0];
    assert!(read.enable_state_unscaled);
    assert_eq!(read.enable_state_current, 200);
    assert_eq!(read.enable_state, 77);
}

#[test]
fn gradient_layout() {
    let gradient = Gradient {
        color_keys: vec![[1, 2, 3, 4]],
        color_time_keys: vec![5, 6],
        alpha_keys: Vec::new(),
        alpha_time_keys: vec![7],
    };
    let mut out: Vec<u8> = Vec::new();
    assert_eq!(write_gradient(&mut out, &gradient), Ok(()));
    assert_eq!(
        out,
        vec![1, 0, 1, 2, 3, 4, 2, 0, 5, 0, 0, 0, 6, 0, 0, 0, 0, 0, 1, 0, 7, 0, 0, 0]
    );
    assert_eq!(read_gradient(&out, 0), Ok((gradient, 24usize)));
    assert_eq!(read_gradient(&out[..23], 0), Err(truncated(20)));
}

#[test]
fn gradient_with_too_many_keys_is_refused() {
    let mut gradient = Gradient {
        color_keys: Vec::new(),
        color_time_keys: vec![0; 65535],
        alpha_keys: Vec::new(),
        alpha_time_keys: Vec::new(),
    };
    let mut out: Vec<u8> = Vec::new();
    assert_eq!(write_gradient(&mut out, &gradient), Ok(()));
    gradient.color_time_keys.push(0);
    assert_eq!(write_gradient(&mut out, &gradient), Err(CodecError::FormatViolation));
    gradient.color_time_keys.clear();
    gradient.color_keys = vec![[0; 4]; 65536];
    assert_eq!(write_gradient(&mut out, &gradient), Err(CodecError::FormatViolation));
}

#[test]
fn type_settings_layout() {
    let mut out: Vec<u8> = Vec::new();
    assert_eq!(write_type_settings(&mut out, MATH_BLOCK, &math_settings()), Ok(()));
    assert_eq!(out, vec![6, 0, b'a', b'*', b'b', b'+', 0xCF, 0x80, 3, 2, 0, 1, 2, 0, 1]);
    assert_eq!(read_type_settings(&out, 0, MATH_BLOCK), Ok((math_settings(), 15usize)));
    assert_eq!(read_type_settings(&out, 0, 128), Ok((TypeSettings::Empty, 0usize)));

    let mut out: Vec<u8> = Vec::new();
    assert_eq!(write_type_settings(&mut out, 130, &math_settings()), Ok(()));
    assert!(out.is_empty());
    assert_eq!(write_type_settings(&mut out, MATH_BLOCK, &TypeSettings::Empty), Ok(()));
    assert_eq!(out, vec![0, 0, 0, 0]);
}

#[test]
fn type_settings_that_do_not_fit_are_refused() {
    let long = TypeSettings::MathBlock {
        function: String::new(),
        incoming_connections_order: vec![0; 256],
        slots: Vec::new(),
    };
    let mut out: Vec<u8> = Vec::new();
    assert_eq!(write_type_settings(&mut out, MATH_BLOCK, &long), Err(CodecError::FormatViolation));
    let mut out: Vec<u8> = Vec::new();
    assert_eq!(write_type_settings(&mut out, 1, &long), Ok(()));
    let long = TypeSettings::MathBlock {
        function: "x".repeat(65536),
        incoming_connections_order: Vec::new(),
        slots: Vec::new(),
    };
    assert_eq!(write_type_settings(&mut out, MATH_BLOCK, &long), Err(CodecError::FormatViolation));
}

#[test]
fn type_settings_function_must_be_utf8() {
    assert_eq!(
        read_type_settings(&[2, 0, 0xC3, 0x28, 0, 0], 0, MATH_BLOCK),
        Err(DecodeError { kind: CodecError::InvalidUtf8, offset: 0 })
    );
    assert_eq!(read_type_settings(&[2, 0, b'a'], 0, MATH_BLOCK), Err(truncated(3)));
}

#[test]
fn metadata_layout_with_fields() {
    let m: BlockMetadata<u16> = BlockMetadata::new(
        vec![true, false],
        vec![0x11223344],
        vec![vec![3, 65535], Vec::new()],
        vec![200],
        vec![[1, 2, 3, 4]],
        Vec::new(),
        Vec::new(),
        TypeSettings::Empty,
    )
    .unwrap();
    let mut out: Vec<u8> = Vec::new();
    assert_eq!(write_metadata(&mut out, 1, &m), Ok(()));
    let expected: Vec<u8> = vec![
        2, 0, 1, 0, // toggles
        1, 0, 0x44, 0x33, 0x22, 0x11, // values
        2, 0, // control word: two fields
        2, 0, 3, 0, 0, 0, 0xFF, 0xFF, 0, 0, // first field
        0, 0, // second field
        1, 0, 200, 0, 0, 0, // dropdowns
        1, 0, 1, 2, 3, 4, // colours
        0, 0, // gradients
    ];
    assert_eq!(out, expected);
    assert_eq!(read_metadata(&out, 0, 1), Ok((m, expected.len())));
}

#[test]
fn metadata_layout_with_vectors() {
    let m: BlockMetadata<u16> = BlockMetadata::new(
        Vec::new(),
        Vec::new(),
        Vec::new(),
        Vec::new(),
        Vec::new(),
        Vec::new(),
        vec![[1, 2, 3]],
        TypeSettings::Empty,
    )
    .unwrap();
    let mut out: Vec<u8> = Vec::new();
    assert_eq!(write_metadata(&mut out, 1, &m), Ok(()));
    let expected: Vec<u8> = vec![
        0, 0, // toggles
        0, 0, // values
        0xFF, 0x7F, // control word: vectors
        1, 0, 1, 0, 0, 0, 2, 0, 0, 0, 3, 0, 0, 0, // vectors
        0, 0, // dropdowns
        0, 0, // colours
        0, 0, // gradients
    ];
    assert_eq!(out, expected);
    assert_eq!(read_metadata(&out, 0, 1), Ok((m, expected.len())));
}

#[test]
fn metadata_control_word_is_read_by_remainder() {
    // 0x8000: vectors announced, and one field.
    let mut stream: Vec<u8> = vec![0, 0, 0, 0, 0x00, 0x80];
    stream.extend_from_slice(&[0, 0]); // no vectors after all
    stream.extend_from_slice(&[1, 0, 4, 0, 0, 0]); // the field
    stream.extend_from_slice(&[0, 0, 0, 0, 0, 0]);
    let (m, next) = read_metadata(&stream, 0, 1).unwrap();
    assert_eq!(next, stream.len());
    assert_eq!(m.fields(), &vec![vec![4u16]]);
    assert!(m.vectors().is_empty());
    // 0x7FFF with an empty list of vectors: neither fields nor vectors.
    let stream: Vec<u8> = vec![0, 0, 0, 0, 0xFF, 0x7F, 0, 0, 0, 0, 0, 0, 0, 0];
    let (m, _) = read_metadata(&stream, 0, 1).unwrap();
    assert!(m.fields().is_empty() && m.vectors().is_empty());
    // 0xFFFE is twice 0x7FFF: vectors and no fields.
    let mut stream: Vec<u8> = vec![0, 0, 0, 0, 0xFE, 0xFF, 1, 0];
    stream.extend_from_slice(&[0u8; 12]);
    stream.extend_from_slice(&[0, 0, 0, 0, 0, 0]);
    let (m, _) = read_metadata(&stream, 0, 1).unwrap();
    assert!(m.fields().is_empty());
    assert_eq!(m.vectors(), &vec![[0u32, 0, 0]]);
}

#[test]
fn metadata_with_fields_and_vectors_in_a_stream_is_refused() {
    let mut stream: Vec<u8> = vec![0, 0, 0, 0, 0x00, 0x80];
    stream.extend_from_slice(&[1, 0]);
    stream.extend_from_slice(&[0u8; 12]);
    stream.extend_from_slice(&[0, 0]); // the field
    stream.extend_from_slice(&[0, 0, 0, 0, 0, 0]);
    assert_eq!(read_metadata(&stream, 0, 1), Err(violation(22)));
}

#[test]
fn metadata_drops_numbers_that_do_not_convert() {
    let mut stream: Vec<u8> = vec![2, 0, 0, 7, 0, 0, 1, 0];
    // One field: -1, 5, 65536, 65535.
    stream.extend_from_slice(&[4, 0]);
    stream.extend_from_slice(&(-1i32).to_le_bytes());
    stream.extend_from_slice(&5i32.to_le_bytes());
    stream.extend_from_slice(&65536i32.to_le_bytes());
    stream.extend_from_slice(&65535i32.to_le_bytes());
    // Dropdowns: 255, 256, -5, 0.
    stream.extend_from_slice(&[4, 0]);
    stream.extend_from_slice(&255i32.to_le_bytes());
    stream.extend_from_slice(&256i32.to_le_bytes());
    stream.extend_from_slice(&(-5i32).to_le_bytes());
    stream.extend_from_slice(&0i32.to_le_bytes());
    stream.extend_from_slice(&[0, 0, 0, 0]);
    let (m, next) = read_metadata(&stream, 0, 1).unwrap();
    assert_eq!(next, stream.len());
    assert_eq!(m.toggles(), &vec![false, true]);
    assert_eq!(m.fields(), &vec![vec![5u16, 65535]]);
    assert_eq!(m.dropdowns(), &vec![255u8, 0]);
}

#[test]
fn metadata_that_does_not_fit_is_refused() {
    let with_fields = |count: usize| -> BlockMetadata<u16> {
        BlockMetadata::new(
            Vec::new(),
            Vec::new(),
            vec![Vec::new(); count],
            Vec::new(),
            Vec::new(),
            Vec::new(),
            Vec::new(),
            TypeSettings::Empty,
        )
        .unwrap()
    };
    let mut out: Vec<u8> = Vec::new();
    assert_eq!(write_metadata(&mut out, 1, &with_fields(0x7FFE)), Ok(()));
    assert_eq!(&out[4..6], &[0xFE, 0x7F]);
    let mut out: Vec<u8> = Vec::new();
    assert_eq!(write_metadata(&mut out, 1, &with_fields(0x7FFF)), Err(CodecError::FormatViolation));
    let long_field: BlockMetadata<u16> = BlockMetadata::new(
        Vec::new(),
        Vec::new(),
        vec![vec![0; 65536]],
        Vec::new(),
        Vec::new(),
        Vec::new(),
        Vec::new(),
        TypeSettings::Empty,
    )
    .unwrap();
    assert_eq!(write_metadata(&mut out, 1, &long_field), Err(CodecError::FormatViolation));
    let many_toggles: BlockMetadata<u16> = BlockMetadata::new(
        vec![true; 65536],
        Vec::new(),
        Vec::new(),
        Vec::new(),
        Vec::new(),
        Vec::new(),
        Vec::new(),
        TypeSettings::Empty,
    )
    .unwrap();
    assert_eq!(write_metadata(&mut out, 1, &many_toggles), Err(CodecError::FormatViolation));
}

#[test]
fn block_with_too_many_connections_is_refused() {
    let mut block: Block<u16> = Block::with_id(1);
    block.connections = vec![0; 65535];
    let mut out: Vec<u8> = Vec::new();
    assert_eq!(write_block(&mut out, &SerializableBlock { root: 0, block }, None), Ok(()));
    let mut block: Block<u16> = Block::with_id(1);
    block.connections = vec![0; 65536];
    assert_eq!(
        write_block(&mut out, &SerializableBlock { root: 0, block }, None),
        Err(CodecError::FormatViolation)
    );
    assert_eq!(
        write_block(&mut out, &SerializableBlock { root: 256, block: Block::with_id(1) }, None),
        Err(CodecError::FormatViolation)
    );
}

#[test]
fn root_layout() {
    let root = SerializableRoot { position: [1, 2, 0x01020304], rotation: [4, 5, 6] };
    let mut out: Vec<u8> = Vec::new();
    write_root(&mut out, &root);
    assert_eq!(
        out,
        vec![1, 0, 0, 0, 2, 0, 0, 0, 4, 3, 2, 1, 4, 0, 0, 0, 5, 0, 0, 0, 6, 0, 0, 0]
    );
    assert_eq!(read_root(&out, 0), Ok((root, 24usize)));
    assert_eq!(read_root(&out, 1), Err(truncated(21)));
}

#[test]
fn block_roundtrip_with_and_without_dictionaries() {
    let mut block: Block<u16> = Block::with_id(MATH_BLOCK);
    block.rotation = [7, 8, 9];
    block.color = Some([0xFF, 0x80, 0x01, 0x02]);
    block.name = "name".to_string();
    block.load = Some(65535);
    block.connections = vec![1, 2, 3];
    block.metadata = Some(metadata(vec![vec![1, 2]], Vec::new(), math_settings()));
    let record = SerializableBlock { root: 255, block };
    let mut out: Vec<u8> = Vec::new();
    assert_eq!(write_block(&mut out, &record, None), Ok(()));
    let (back, next) = read_block(&out, 0, None).unwrap();
    assert_eq!(next, out.len());
    assert_eq!(back, record);

    let blocks = vec![record];
    let tables = build_tables(&blocks).unwrap();
    let mut out: Vec<u8> = Vec::new();
    assert_eq!(write_block(&mut out, &blocks[0], Some(&tables)), Ok(()));
    let wire = WireTableSet { rotations: vec![[7, 8, 9]], colors: vec![0xFC00] };
    let (back, next) = read_block(&out, 0, Some(&wire)).unwrap();
    assert_eq!(next, out.len());
    assert_eq!(back.block.rotation, [7, 8, 9]);
    assert_eq!(back.block.color, Some([0xF8, 0x80, 0x00, 0xFF]));
}

#[test]
fn block_needs_its_values_in_the_dictionaries() {
    let tables = TableSet { rotations: DedupTable::new(), colors: DedupTable::new() };
    let record = SerializableBlock { root: 0, block: Block::with_id(1) };
    let mut out: Vec<u8> = Vec::new();
    assert_eq!(write_block(&mut out, &record, Some(&tables)), Err(CodecError::FormatViolation));
    let mut tables = tables;
    assert_eq!(tables.rotations.intern(0), Some(0));
    assert_eq!(write_block(&mut out, &record, Some(&tables)), Ok(()));
    let mut block: Block<u16> = Block::with_id(1);
    block.color = Some([0, 0, 0, 0]);
    let record = SerializableBlock { root: 0, block };
    assert_eq!(write_block(&mut out, &record, Some(&tables)), Err(CodecError::FormatViolation));
}

#[test]
fn dictionary_index_past_the_end_is_refused() {
    let wire = WireTableSet { rotations: vec![[1, 2, 3]], colors: Vec::new() };
    let mut stream = vec![0u8; 12];
    stream.extend_from_slice(&[1, 0, 1, 0, 0b0011_1100, 0, 0]);
    assert_eq!(read_block(&stream, 0, Some(&wire)), Err(violation(12)));
    stream[12] = 0;
    assert_eq!(read_block(&stream, 0, Some(&wire)).unwrap().0.block.rotation, [1, 2, 3]);
    stream[16] = 0b0011_0100;
    stream.extend_from_slice(&[0, 0]);
    assert_eq!(read_block(&stream, 0, Some(&wire)), Err(violation(19)));
}

#[test]
fn dictionary_gives_the_next_index_to_a_new_value() {
    let mut table = DedupTable::new();
    assert_eq!(table.len(), 0);
    assert_eq!(table.find(5), None);
    assert_eq!(table.intern(5), Some(0));
    assert_eq!(table.intern(9), Some(1));
    assert_eq!(table.intern(5), Some(0));
    assert_eq!(table.intern(1), Some(2));
    assert_eq!(table.intern(9), Some(1));
    assert_eq!(table.len(), 3);
    assert_eq!(table.find(9), Some(1));
    assert_eq!(table.find(1), Some(2));
    assert_eq!(table.find(2), None);
    assert_eq!(table.values(), vec![5u64, 9, 1]);
}

#[test]
fn dictionary_is_full_at_65536_values() {
    let mut table = DedupTable::new();
    for value in 0..65536u64 {
        assert_eq!(table.intern(value * 3), Some(value as u16));
    }
    assert_eq!(table.intern(1), None);
    assert_eq!(table.intern(3), Some(1));
    assert_eq!(table.len(), 65536);
    assert_eq!(table.find(65535 * 3), Some(65535));
}

#[test]
fn dictionaries_hold_values_in_the_order_of_their_first_block() {
    let block = |rotation: [u16; 3], color: Option<[u8; 4]>| {
        let mut block: Block<u16> = Block::with_id(1);
        block.rotation = rotation;
        block.color = color;
        SerializableBlock { root: 0, block }
    };
    let blocks = vec![
        block([3, 0, 0], None),
        block([1, 0, 0], Some([0xFF, 0, 0, 0])),
        block([3, 0, 0], Some([0, 0, 0xFF, 9])),
        block([2, 0, 0], Some([0xFF, 1, 1, 1])),
    ];
    let tables = build_tables(&blocks).unwrap();
    assert_eq!(tables.rotations.values(), vec![3u64, 1, 2]);
    assert_eq!(tables.colors.values(), vec![0xF800u64, 0x001F]);
    let mut out: Vec<u8> = Vec::new();
    assert_eq!(write_tables(&mut out, &tables), Ok(()));
    assert_eq!(
        out,
        vec![3, 0, 3, 0, 0, 0, 0, 0, 1, 0, 0, 0, 0, 0, 2, 0, 0, 0, 0, 0, 2, 0, 0x00, 0xF8, 0x1F, 0x00]
    );
    let (read, next) = read_tables(&out, 0, 6).unwrap();
    assert_eq!(next, out.len());
    let read = read.unwrap();
    assert_eq!(read.rotations, vec![[3u16, 0, 0], [1, 0, 0], [2, 0, 0]]);
    assert_eq!(read.colors, vec![0xF800u16, 0x001F]);
    assert!(read_tables(&out, 0, 5).unwrap().0.is_none());
}

#[test]
fn dictionaries_of_more_than_65536_values_are_refused() {
    let block = |n: u32| {
        let mut block: Block<u16> = Block::with_id(1);
        block.rotation = [(n & 0xFFFF) as u16, (n >> 16) as u16, 0];
        SerializableBlock { root: 0, block }
    };
    let mut blocks: Vec<SerializableBlock> = (0..65536u32).map(block).collect();
    let tables = build_tables(&blocks).unwrap();
    assert_eq!(tables.rotations.len(), 65536);
    let mut out: Vec<u8> = Vec::new();
    assert_eq!(write_tables(&mut out, &tables), Err(CodecError::FormatViolation));
    blocks.push(block(65535));
    assert!(build_tables(&blocks).is_some());
    blocks.push(block(65536));
    assert!(build_tables(&blocks).is_none());
}

#[test]
fn keys_of_rotations_and_colours() {
    assert_eq!(rotation_key_of(&[1, 2, 3]), 0x0003_0002_0001);
    assert_eq!(rotation_key_of(&[0xFFFF, 0, 0xFFFF]), 0xFFFF_0000_FFFF);
    assert_eq!(color_key_of(&[0x12, 0x34, 0x56, 0x78]), 0x11AA);
    assert_eq!(color_from_word(0x11AA), [0x10, 0x34, 0x50, 0xFF]);
}

#[test]
fn building_becomes_two_flat_lists_and_back() {
    let flat = SerializableBuilding::from_building(&sample()).unwrap();
    assert_eq!(flat.roots.len(), 2);
    assert_eq!(flat.roots[0], SerializableRoot { position: [1, 2, 3], rotation: [4, 5, 6] });
    let roots: Vec<u16> = flat.blocks.iter().map(|b| b.root).collect();
    assert_eq!(roots, vec![0, 0, 0, 1, 1]);
    assert_eq!(flat.blocks[0].block.connections, vec![1u16, 4, 0]);
    assert_eq!(flat.blocks[0].block.load, Some(3));
    assert_eq!(flat.blocks[3].block.load, Some(2));
    assert_eq!(flat.blocks[4].block.connections, vec![4u16]);
    assert_eq!(flat.blocks[1].block.metadata.as_ref().unwrap().fields(), &vec![vec![4u16, 0], vec![]]);
    assert_eq!(flat.into_building(), Ok(sample()));
    let mut stream: Vec<u8> = Vec::new();
    assert_eq!(write_stream(&mut stream, &flat, 0), Ok(()));
    assert_eq!(stream, encode(&sample(), 0));
    assert_eq!(read_stream(&stream), Ok(flat));
}

#[test]
fn flat_lists_with_too_many_roots_or_blocks_are_refused() {
    let mut flat = SerializableBuilding {
        roots: vec![SerializableRoot { position: [0; 3], rotation: [0; 3] }; 65536],
        blocks: Vec::new(),
    };
    let mut out: Vec<u8> = Vec::new();
    assert_eq!(write_stream(&mut out, &flat, 0), Err(CodecError::FormatViolation));
    flat.roots.pop();
    assert_eq!(write_stream(&mut out, &flat, 0), Ok(()));
    assert_eq!(
        SerializableBuilding { roots: Vec::new(), blocks: vec![SerializableBlock { root: 0, block: Block::with_id(0) }] }
            .into_building(),
        Err(CodecError::FormatViolation)
    );
}

#[test]
fn streams_cut_short_are_truncated() {
    for version in [0u8, 6] {
        let stream = encode(&sample(), version);
        for end in 0..stream.len() {
            match read_building(&stream[..end]) {
                Err(DecodeError { kind: CodecError::TruncatedStream, offset }) => {
                    assert!(offset <= end);
                }
                other => panic!("{} of {}: {:?}", end, stream.len(), other),
            }
        }
    }
    assert_eq!(read_building(&[]), Err(truncated(0)));
    assert_eq!(read_building(&[0, 1]), Err(truncated(1)));
    assert_eq!(read_building(&[0, 0, 0, 1, 0]), Err(truncated(5)));
}

#[test]
fn name_that_is_not_utf8_is_refused() {
    let block = plain_block_bytes(0, 0b0011_1101, &[2, 0xC3, 0x28, 0]);
    let stream = stream_of(1, &[block]);
    assert_eq!(
        read_building(&stream),
        Err(DecodeError { kind: CodecError::InvalidUtf8, offset: 1 + 2 + 24 + 2 + 23 })
    );
    let block = plain_block_bytes(0, 0b0011_1101, &[0xFF; 12]);
    let stream = stream_of(1, &[block]);
    assert_eq!(
        read_building(&stream),
        Err(DecodeError { kind: CodecError::MalformedVarint, offset: 1 + 2 + 24 + 2 + 22 + 9 })
    );
}

#[test]
fn building_writes_and_reads_itself() {
    let building = sample();
    let mut out: Vec<u8> = vec![0xEE];
    assert_eq!(building.write(&mut out, 3), Ok(()));
    assert_eq!(out[0], 0xEE);
    assert_eq!(&out[1..], &encode(&building, 3)[..]);
    assert_eq!(Building::read(&out[1..]), Ok(building));
    assert_eq!(Building::read(&out[..1]), Err(truncated(1)));
}

#[test]
fn empty_building_is_five_bytes() {
    assert_eq!(encode(&Building::new(), 0), vec![0, 0, 0, 0, 0]);
    assert_eq!(encode(&Building::new(), 6), vec![6, 0, 0, 0, 0, 0, 0, 0, 0]);
    assert_eq!(read_building(&[0, 0, 0, 0, 0]), Ok(Building::new()));
    assert_eq!(read_building(&[9, 0, 0, 0, 0, 0, 0, 0, 0]), Ok(Building::new()));
}
