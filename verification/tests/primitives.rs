use swsel::error::{CodecError, DecodeError};
use swsel::io::utils::{
    pack_bools, pack_color, read_7bit_encoded_int, read_array, read_array3, read_array4, read_num,
    read_string_7bit, read_vec, unpack_bools, unpack_color, write_7bit_encoded_int, write_array,
    write_array3, write_array4, write_num, write_raw, write_string_7bit, write_vec, BigEndian,
    LittleEndian, BE, LE, VARINT_MAX,
};
use swsel::packedcolor::PackedColor;

fn truncated(offset: usize) -> DecodeError {
    DecodeError { kind: CodecError::TruncatedStream, offset }
}

#[test]
fn varint_128_is_two_bytes() {
    let mut out: Vec<u8> = Vec::new();
    write_7bit_encoded_int(&mut out, 128);
    assert_eq!(out, vec![0x80u8, 0x01u8]);
    assert_eq!(read_7bit_encoded_int(&[0x80, 0x01], 0), Ok((128u64, 2usize)));
}

#[test]
fn varint_small_values_take_one_byte() {
    for v in [0u64, 1, 0x7F] {
        let mut out: Vec<u8> = Vec::new();
        write_7bit_encoded_int(&mut out, v);
        assert_eq!(out, vec![v as u8]);
        assert_eq!(read_7bit_encoded_int(&out, 0), Ok((v, 1usize)));
    }
}

#[test]
fn varint_300_low_chunk_first() {
    let mut out: Vec<u8> = vec![0xAA];
    write_7bit_encoded_int(&mut out, 300);
    assert_eq!(out, vec![0xAA, 0xAC, 0x02]);
    assert_eq!(read_7bit_encoded_int(&out, 1), Ok((300u64, 3usize)));
}

#[test]
fn varint_roundtrip_up_to_the_largest_readable() {
    for v in [0x80u64, 0x3FFF, 0x4000, 0xFFFF_FFFF, 1 << 62, VARINT_MAX] {
        let mut out: Vec<u8> = Vec::new();
        write_7bit_encoded_int(&mut out, v);
        let n = out.len();
        assert_eq!(read_7bit_encoded_int(&out, 0), Ok((v, n)));
    }
    let mut out: Vec<u8> = Vec::new();
    write_7bit_encoded_int(&mut out, VARINT_MAX);
    assert_eq!(out.len(), 9);
}

#[test]
fn varint_of_ten_bytes_is_malformed() {
    let mut out: Vec<u8> = Vec::new();
    write_7bit_encoded_int(&mut out, VARINT_MAX + 1);
    assert_eq!(out.len(), 10);
    assert_eq!(
        read_7bit_encoded_int(&out, 0),
        Err(DecodeError { kind: CodecError::MalformedVarint, offset: 9 })
    );
    let endless = [0xFFu8; 16];
    assert_eq!(
        read_7bit_encoded_int(&endless, 2),
        Err(DecodeError { kind: CodecError::MalformedVarint, offset: 11 })
    );
}

#[test]
fn varint_cut_short_is_truncated() {
    assert_eq!(read_7bit_encoded_int(&[0x80], 0), Err(truncated(1)));
    assert_eq!(read_7bit_encoded_int(&[], 0), Err(truncated(0)));
    assert_eq!(read_7bit_encoded_int(&[1, 2], 5), Err(truncated(5)));
}

#[test]
fn numbers_in_both_byte_orders() {
    let mut out: Vec<u8> = Vec::new();
    write_num::<u8, LittleEndian>(&mut out, 0xAB);
    write_num::<u16, LittleEndian>(&mut out, 0x1234);
    write_num::<u16, BigEndian>(&mut out, 0x1234);
    write_num::<u32, LE>(&mut out, 0x89ABCDEF);
    write_num::<u32, BE>(&mut out, 0x89ABCDEF);
    write_num::<i32, LE>(&mut out, -2);
    write_num::<i32, BE>(&mut out, -2);
    assert_eq!(
        out,
        vec![
            0xAB, 0x34, 0x12, 0x12, 0x34, 0xEF, 0xCD, 0xAB, 0x89, 0x89, 0xAB, 0xCD, 0xEF, 0xFE,
            0xFF, 0xFF, 0xFF, 0xFF, 0xFF, 0xFF, 0xFE
        ]
    );
    assert_eq!(read_num::<u8, LE>(&out, 0), Ok((0xABu8, 1usize)));
    assert_eq!(read_num::<u16, LE>(&out, 1), Ok((0x1234u16, 3usize)));
    assert_eq!(read_num::<u16, BE>(&out, 3), Ok((0x1234u16, 5usize)));
    assert_eq!(read_num::<u32, LE>(&out, 5), Ok((0x89ABCDEFu32, 9usize)));
    assert_eq!(read_num::<u32, BE>(&out, 9), Ok((0x89ABCDEFu32, 13usize)));
    assert_eq!(read_num::<i32, LE>(&out, 13), Ok((-2i32, 17usize)));
    assert_eq!(read_num::<i32, BE>(&out, 17), Ok((-2i32, 21usize)));
}

#[test]
fn wide_and_signed_numbers_in_both_byte_orders() {
    let mut out: Vec<u8> = Vec::new();
    write_num::<u64, LE>(&mut out, 0x0102030405060708);
    write_num::<u64, BE>(&mut out, 0x0102030405060708);
    write_num::<i64, LE>(&mut out, -2);
    write_num::<i64, BE>(&mut out, i64::MIN);
    write_num::<i16, LE>(&mut out, -2);
    write_num::<i16, BE>(&mut out, 0x0102);
    write_num::<i8, LE>(&mut out, -1);
    write_num::<i8, BE>(&mut out, 5);
    let expected: Vec<u8> = vec![
        8, 7, 6, 5, 4, 3, 2, 1, //
        1, 2, 3, 4, 5, 6, 7, 8, //
        0xFE, 0xFF, 0xFF, 0xFF, 0xFF, 0xFF, 0xFF, 0xFF, //
        0x80, 0, 0, 0, 0, 0, 0, 0, //
        0xFE, 0xFF, 1, 2, 0xFF, 5,
    ];
    assert_eq!(out, expected);
    assert_eq!(read_num::<u64, LE>(&out, 0), Ok((0x0102030405060708u64, 8usize)));
    assert_eq!(read_num::<u64, BE>(&out, 8), Ok((0x0102030405060708u64, 16usize)));
    assert_eq!(read_num::<i64, LE>(&out, 16), Ok((-2i64, 24usize)));
    assert_eq!(read_num::<i64, BE>(&out, 24), Ok((i64::MIN, 32usize)));
    assert_eq!(read_num::<i16, LE>(&out, 32), Ok((-2i16, 34usize)));
    assert_eq!(read_num::<i16, BE>(&out, 34), Ok((0x0102i16, 36usize)));
    assert_eq!(read_num::<i8, LE>(&out, 36), Ok((-1i8, 37usize)));
    assert_eq!(read_num::<i8, BE>(&out, 37), Ok((5i8, 38usize)));
    assert_eq!(read_num::<i8, BE>(&out, 38), Err(truncated(38)));
    assert_eq!(read_num::<u64, LE>(&out, 31), Err(truncated(31)));
    assert_eq!(read_num::<i64, BE>(&out, 31), Err(truncated(31)));
    assert_eq!(read_num::<i16, LE>(&out, 37), Err(truncated(37)));
}

#[test]
fn double_precision_bits_go_through_unchanged() {
    let mut out: Vec<u8> = Vec::new();
    write_num::<u64, BE>(&mut out, (-0.1f64).to_bits());
    assert_eq!(out, (-0.1f64).to_be_bytes().to_vec());
    let (back, _) = read_num::<u64, BE>(&out, 0).unwrap();
    assert_eq!(f64::from_bits(back), -0.1f64);
}

#[test]
fn single_precision_bits_go_through_unchanged() {
    let bits = 1.5f32.to_bits();
    let mut out: Vec<u8> = Vec::new();
    write_num::<u32, LE>(&mut out, bits);
    assert_eq!(out, 1.5f32.to_le_bytes().to_vec());
    let (back, _) = read_num::<u32, LE>(&out, 0).unwrap();
    assert_eq!(f32::from_bits(back), 1.5f32);
}

#[test]
fn numbers_cut_short_are_truncated() {
    assert_eq!(read_num::<u8, LE>(&[], 0), Err(truncated(0)));
    assert_eq!(read_num::<u16, LE>(&[1], 0), Err(truncated(0)));
    assert_eq!(read_num::<u32, LE>(&[1, 2, 3, 4, 5], 2), Err(truncated(2)));
    assert_eq!(read_num::<i32, BE>(&[1, 2, 3], 0), Err(truncated(0)));
    assert_eq!(read_num::<u16, LE>(&[1, 2], usize::MAX), Err(truncated(usize::MAX)));
}

#[test]
fn arrays_have_no_length_in_front() {
    let mut out: Vec<u8> = Vec::new();
    write_array::<u16, LE>(&mut out, &[1, 2, 3]);
    assert_eq!(out, vec![1, 0, 2, 0, 3, 0]);
    assert_eq!(read_array::<u16, LE>(&out, 0, 3), Ok((vec![1u16, 2, 3], 6usize)));
    assert_eq!(read_array::<u16, LE>(&out, 0, 0), Ok((vec![], 0usize)));
    assert_eq!(read_array::<u16, LE>(&out, 0, 4), Err(truncated(6)));

    let mut out: Vec<u8> = Vec::new();
    write_array3::<u16, BE>(&mut out, &[0x0102, 0x0304, 0x0506]);
    write_array4::<u8, LE>(&mut out, &[9, 8, 7, 6]);
    assert_eq!(out, vec![1, 2, 3, 4, 5, 6, 9, 8, 7, 6]);
    assert_eq!(read_array3::<u16, BE>(&out, 0), Ok(([0x0102u16, 0x0304, 0x0506], 6usize)));
    assert_eq!(read_array4::<u8, LE>(&out, 6), Ok(([9u8, 8, 7, 6], 10usize)));
    assert_eq!(read_array4::<u8, LE>(&out, 7), Err(truncated(10)));
    assert_eq!(read_array3::<u32, LE>(&out, 0), Err(truncated(8)));
}

#[test]
fn vectors_carry_their_length() {
    let mut out: Vec<u8> = Vec::new();
    assert_eq!(write_vec::<u16, u32, LE>(&mut out, &[7, 0x01020304]), Ok(()));
    assert_eq!(out, vec![2, 0, 7, 0, 0, 0, 4, 3, 2, 1]);
    assert_eq!(read_vec::<u16, u32, LE>(&out, 0), Ok((vec![7u32, 0x01020304], 10usize)));

    let mut out: Vec<u8> = Vec::new();
    assert_eq!(write_vec::<u8, u8, LE>(&mut out, &[5, 6, 7]), Ok(()));
    assert_eq!(out, vec![3, 5, 6, 7]);
    assert_eq!(read_vec::<u8, u8, LE>(&out, 0), Ok((vec![5u8, 6, 7], 4usize)));
    assert_eq!(read_vec::<u8, u8, LE>(&[3, 5, 6], 0), Err(truncated(3)));
    assert_eq!(read_vec::<u16, u8, BE>(&[0, 1, 9], 0), Ok((vec![9u8], 3usize)));
}

#[test]
fn vector_too_long_for_its_length_type_is_refused() {
    let items = vec![0u8; 256];
    let mut out: Vec<u8> = vec![1, 2, 3];
    assert_eq!(write_vec::<u8, u8, LE>(&mut out, &items), Err(CodecError::FormatViolation));
    assert_eq!(out, vec![1, 2, 3]);
    assert_eq!(write_vec::<u8, u8, LE>(&mut out, &items[..255]), Ok(()));
    assert_eq!(out.len(), 3 + 1 + 255);

    let items = vec![0u8; 65536];
    let mut out: Vec<u8> = Vec::new();
    assert_eq!(write_vec::<u16, u8, LE>(&mut out, &items), Err(CodecError::FormatViolation));
    assert_eq!(write_vec::<u16, u8, LE>(&mut out, &items[..65535]), Ok(()));
    assert_eq!(&out[..2], &[0xFF, 0xFF]);
}

#[test]
fn strings_carry_their_byte_length() {
    let mut out: Vec<u8> = Vec::new();
    assert_eq!(write_string_7bit(&mut out, "héllo"), Ok(()));
    assert_eq!(out, vec![6, b'h', 0xC3, 0xA9, b'l', b'l', b'o']);
    assert_eq!(read_string_7bit(&out, 0), Ok((String::from("héllo"), 7usize)));

    let mut out: Vec<u8> = Vec::new();
    assert_eq!(write_string_7bit(&mut out, ""), Ok(()));
    assert_eq!(out, vec![0]);
    assert_eq!(read_string_7bit(&out, 0), Ok((String::new(), 1usize)));

    let long = "x".repeat(200);
    let mut out: Vec<u8> = Vec::new();
    assert_eq!(write_string_7bit(&mut out, &long), Ok(()));
    assert_eq!(&out[..2], &[0xC8, 0x01]);
    assert_eq!(read_string_7bit(&out, 0), Ok((long, 202usize)));
}

#[test]
fn string_that_is_not_utf8_is_refused() {
    assert_eq!(
        read_string_7bit(&[2, 0xC3, 0x28], 0),
        Err(DecodeError { kind: CodecError::InvalidUtf8, offset: 1 })
    );
    assert_eq!(
        read_string_7bit(&[1, 0xFF], 0),
        Err(DecodeError { kind: CodecError::InvalidUtf8, offset: 1 })
    );
}

#[test]
fn string_cut_short_is_truncated() {
    assert_eq!(read_string_7bit(&[5, b'a', b'b'], 0), Err(truncated(1)));
    assert_eq!(read_string_7bit(&[], 0), Err(truncated(0)));
    assert_eq!(
        read_string_7bit(&[0xFF, 0xFF, 0xFF, 0xFF, 0xFF, 0xFF, 0xFF, 0xFF, 0x7F], 0),
        Err(truncated(9))
    );
}

#[test]
fn raw_bytes_are_appended_as_they_are() {
    let mut out: Vec<u8> = vec![1];
    write_raw(&mut out, &[2, 3]);
    write_raw(&mut out, &[]);
    assert_eq!(out, vec![1, 2, 3]);
}

#[test]
fn bools_pack_low_bit_first() {
    assert_eq!(pack_bools(&[true, false, true]), vec![0b0000_0101u8]);
    assert_eq!(pack_bools(&[]), Vec::<u8>::new());
    assert_eq!(pack_bools(&[false; 8]), vec![0u8]);
    assert_eq!(pack_bools(&[true; 8]), vec![0xFFu8]);
    assert_eq!(
        pack_bools(&[false, false, false, false, false, false, false, true, true]),
        vec![0x80u8, 0x01u8]
    );
}

#[test]
fn bools_unpack_stops_at_the_count() {
    assert_eq!(unpack_bools(&[0b0000_0101], 3), vec![true, false, true]);
    assert_eq!(unpack_bools(&[0xFF], 0), Vec::<bool>::new());
    assert_eq!(unpack_bools(&[0xFF, 0x00], 9), vec![true, true, true, true, true, true, true, true, false]);
    assert_eq!(unpack_bools(&[0x01], 20).len(), 8);
    assert_eq!(unpack_bools(&[], 4), Vec::<bool>::new());
}

#[test]
fn bools_come_back_as_packed() {
    let flags = [true, true, false, true, false, false, true, false, true, true, false];
    assert_eq!(unpack_bools(&pack_bools(&flags), flags.len()), flags.to_vec());
}

#[test]
fn color_packs_to_rgb565() {
    assert_eq!(pack_color([0xFF, 0xFF, 0xFF]), 0xFFFF);
    assert_eq!(pack_color([0xFF, 0x00, 0x00]), 0xF800);
    assert_eq!(pack_color([0x00, 0xFF, 0x00]), 0x07E0);
    assert_eq!(pack_color([0x00, 0x00, 0xFF]), 0x001F);
    assert_eq!(pack_color([0x12, 0x34, 0x56]), 0x11AA);
    assert_eq!(pack_color([0x07, 0x03, 0x07]), 0x0000);
}

#[test]
fn color_unpacks_to_truncated_channels() {
    assert_eq!(unpack_color(0xFFFF), [0xF8, 0xFC, 0xF8]);
    assert_eq!(unpack_color(0xF800), [0xF8, 0x00, 0x00]);
    assert_eq!(unpack_color(0x07E0), [0x00, 0xFC, 0x00]);
    assert_eq!(unpack_color(0x001F), [0x00, 0x00, 0xF8]);
    assert_eq!(unpack_color(pack_color([0x12, 0x34, 0x56])), [0x10, 0x34, 0x50]);
}

#[test]
fn color_is_stable_after_one_pass() {
    for rgb in [[0x12u8, 0x34, 0x56], [0xFF, 0xFF, 0xFF], [1, 2, 3], [200, 100, 50]] {
        let once = unpack_color(pack_color(rgb));
        assert_eq!(once, [rgb[0] & 0xF8, rgb[1] & 0xFC, rgb[2] & 0xF8]);
        assert_eq!(unpack_color(pack_color(once)), once);
    }
}

#[test]
fn packed_color_wraps_the_word() {
    assert_eq!(PackedColor::pack_from_u8rgb(0x12, 0x34, 0x56), PackedColor(0x11AA));
    assert_eq!(PackedColor::pack_from_u8x3([0xFF, 0x00, 0x00]), PackedColor(0xF800));
    assert_eq!(PackedColor(0x07E0).unpack_to_u8x3(), [0x00, 0xFC, 0x00]);
}
