//! Binary primitives: fixed-width numbers in either byte order, fixed and
//! length-prefixed sequences of them, variable-length integers, strings,
//! bit-packed flags and 16-bit colour packing.
//!
//! Every writer appends to a byte vector and says exactly which bytes it
//! appends. Every reader takes the whole input and a position, and answers
//! with the value and the position behind it, or with the error that the
//! matching `parse_` function gives.

use vstd::prelude::*;
use vstd::slice::{slice_subrange, slice_to_vec};
use vstd::utf8::{decode_utf8, encode_utf8, valid_utf8};
use vstd::utf8::{encode_utf8_decode_utf8, encode_utf8_valid_utf8};
use crate::error::{at, CodecError, DecodeError};

verus! {

/// Least significant byte first.
pub struct LittleEndian;

/// Most significant byte first.
pub struct BigEndian;

/// Short for `LittleEndian`.
pub type LE = LittleEndian;

/// Short for `BigEndian`.
pub type BE = BigEndian;

/// A byte order.
pub trait Endian {
    spec fn is_little() -> bool;

    fn little() -> (b: bool)
        ensures
            b == Self::is_little(),
    ;
}

impl Endian for LittleEndian {
    open spec fn is_little() -> bool {
        true
    }

    fn little() -> (b: bool) {
        true
    }
}

impl Endian for BigEndian {
    open spec fn is_little() -> bool {
        false
    }

    fn little() -> (b: bool) {
        false
    }
}

/// `bytes` stands in `s` from position `pos` on.
#[verifier::opaque]
pub open spec fn has_at(s: Seq<u8>, pos: int, bytes: Seq<u8>) -> bool {
    &&& 0 <= pos
    &&& pos + bytes.len() <= s.len()
    &&& s.subrange(pos, pos + bytes.len()) == bytes
}

/// What stands at a position stands there part by part.
pub proof fn lemma_has_at_concat(s: Seq<u8>, pos: int, a: Seq<u8>, b: Seq<u8>)
    ensures
        has_at(s, pos, a + b) <==> has_at(s, pos, a) && has_at(s, pos + a.len(), b),
{
    reveal(has_at);
    if has_at(s, pos, a + b) {
        assert(s.subrange(pos, pos + a.len()) =~= (a + b).subrange(0, a.len() as int));
        assert((a + b).subrange(0, a.len() as int) =~= a);
        assert(s.subrange(pos + a.len(), pos + a.len() + b.len()) =~= (a + b).subrange(
            a.len() as int,
            (a + b).len() as int,
        ));
        assert((a + b).subrange(a.len() as int, (a + b).len() as int) =~= b);
    }
    if has_at(s, pos, a) && has_at(s, pos + a.len(), b) {
        assert(s.subrange(pos, pos + (a + b).len()) =~= s.subrange(pos, pos + a.len())
            + s.subrange(pos + a.len(), pos + a.len() + b.len()));
    }
}

/// A whole sequence stands at the start of whatever begins with it.
pub proof fn lemma_has_at_prefix(bytes: Seq<u8>, rest: Seq<u8>)
    ensures
        has_at(bytes + rest, 0, bytes),
{
    reveal(has_at);
    assert((bytes + rest).subrange(0, bytes.len() as int) =~= bytes);
}

/// The two bytes of a 16-bit number, lowest first.
pub open spec fn le_bytes_u16(x: u16) -> Seq<u8> {
    seq![(x & 0xff) as u8, ((x >> 8) & 0xff) as u8]
}

/// The 16-bit number with the given bytes, lowest first.
pub open spec fn u16_from_le(b0: u8, b1: u8) -> u16 {
    (b0 as u16) | ((b1 as u16) << 8)
}

/// The four bytes of a 32-bit number, lowest first.
pub open spec fn le_bytes_u32(x: u32) -> Seq<u8> {
    seq![
        (x & 0xff) as u8,
        ((x >> 8) & 0xff) as u8,
        ((x >> 16) & 0xff) as u8,
        ((x >> 24) & 0xff) as u8,
    ]
}

/// The 32-bit number with the given bytes, lowest first.
pub open spec fn u32_from_le(b0: u8, b1: u8, b2: u8, b3: u8) -> u32 {
    (b0 as u32) | ((b1 as u32) << 8) | ((b2 as u32) << 16) | ((b3 as u32) << 24)
}

/// A number with a fixed-width encoding in the byte order `E`.
pub trait NumericBytes<E: Endian>: Copy + Sized {
    /// The width of the encoding in bytes.
    spec fn size() -> nat;

    /// The encoding of a value.
    spec fn to_bytes(self) -> Seq<u8>;

    /// The value that `size()` bytes encode.
    spec fn from_bytes(bytes: Seq<u8>) -> Self;

    /// Every encoding has the type's width and decodes to the value encoded.
    proof fn lemma_numeric_bytes(self)
        ensures
            Self::size() > 0,
            self.to_bytes().len() == Self::size(),
            Self::from_bytes(self.to_bytes()) == self,
    ;

    fn write_bytes(&self, out: &mut Vec<u8>)
        ensures
            final(out)@ == old(out)@ + self.to_bytes(),
    ;

    fn read_bytes(data: &[u8], pos: usize) -> (r: Result<(Self, usize), DecodeError>)
        ensures
            match r {
                Ok((v, next)) => {
                    &&& pos + Self::size() <= data@.len()
                    &&& next == pos + Self::size()
                    &&& v == Self::from_bytes(data@.subrange(pos as int, pos + Self::size()))
                },
                Err(e) => e == at(CodecError::TruncatedStream, pos as int) && pos + Self::size()
                    > data@.len(),
            },
    ;
}

/// An executable reader's answer is the one its specification gives.
pub open spec fn agrees<T>(r: Result<(T, usize), DecodeError>, p: Result<(T, int), DecodeError>) -> bool {
    match r {
        Ok((v, next)) => p == Ok::<(T, int), DecodeError>((v, next as int)),
        Err(e) => p == Err::<(T, int), DecodeError>(e),
    }
}

/// Reads one number at `pos`: its bytes decoded, or `TruncatedStream` where
/// fewer than `size()` bytes are left.
pub open spec fn parse_num<T: NumericBytes<E>, E: Endian>(s: Seq<u8>, pos: int) -> Result<
    (T, int),
    DecodeError,
> {
    if 0 <= pos && pos + T::size() <= s.len() {
        Ok((T::from_bytes(s.subrange(pos, pos + T::size())), pos + T::size()))
    } else {
        Err(at(CodecError::TruncatedStream, pos))
    }
}

impl<E: Endian> NumericBytes<E> for u8 {
    open spec fn size() -> nat {
        1
    }

    open spec fn to_bytes(self) -> Seq<u8> {
        seq![self]
    }

    open spec fn from_bytes(bytes: Seq<u8>) -> Self {
        bytes[0]
    }

    proof fn lemma_numeric_bytes(self) {
    }

    fn write_bytes(&self, out: &mut Vec<u8>) {
        out.push(*self);
        assert(out@ == old(out)@ + seq![*self]);
    }

    fn read_bytes(data: &[u8], pos: usize) -> (r: Result<(Self, usize), DecodeError>) {
        if pos < data.len() {
            assert(data@.subrange(pos as int, pos + 1)[0] == data@[pos as int]);
            Ok((data[pos], pos + 1))
        } else {
            Err(DecodeError { kind: CodecError::TruncatedStream, offset: pos })
        }
    }
}

impl<E: Endian> NumericBytes<E> for u16 {
    open spec fn size() -> nat {
        2
    }

    open spec fn to_bytes(self) -> Seq<u8> {
        if E::is_little() {
            le_bytes_u16(self)
        } else {
            le_bytes_u16(self).reverse()
        }
    }

    open spec fn from_bytes(bytes: Seq<u8>) -> Self {
        if E::is_little() {
            u16_from_le(bytes[0], bytes[1])
        } else {
            u16_from_le(bytes[1], bytes[0])
        }
    }

    proof fn lemma_numeric_bytes(self) {
        let x = self;
        assert(u16_from_le((x & 0xff) as u8, ((x >> 8) & 0xff) as u8) == x) by (bit_vector);
    }

    fn write_bytes(&self, out: &mut Vec<u8>) {
        let x: u16 = *self;
        let b0: u8 = (x & 0xff) as u8;
        let b1: u8 = ((x >> 8) & 0xff) as u8;
        if E::little() {
            out.push(b0);
            out.push(b1);
            assert(out@ == old(out)@ + le_bytes_u16(x));
        } else {
            out.push(b1);
            out.push(b0);
            assert(out@ == old(out)@ + le_bytes_u16(x).reverse());
        }
    }

    fn read_bytes(data: &[u8], pos: usize) -> (r: Result<(Self, usize), DecodeError>) {
        if pos <= data.len() && data.len() - pos >= 2 {
            let b0: u8 = data[pos];
            let b1: u8 = data[pos + 1];
            assert(data@.subrange(pos as int, pos + 2)[0] == b0);
            assert(data@.subrange(pos as int, pos + 2)[1] == b1);
            if E::little() {
                Ok(((b0 as u16) | ((b1 as u16) << 8), pos + 2))
            } else {
                Ok(((b1 as u16) | ((b0 as u16) << 8), pos + 2))
            }
        } else {
            Err(DecodeError { kind: CodecError::TruncatedStream, offset: pos })
        }
    }
}

impl<E: Endian> NumericBytes<E> for u32 {
    open spec fn size() -> nat {
        4
    }

    open spec fn to_bytes(self) -> Seq<u8> {
        if E::is_little() {
            le_bytes_u32(self)
        } else {
            le_bytes_u32(self).reverse()
        }
    }

    open spec fn from_bytes(bytes: Seq<u8>) -> Self {
        if E::is_little() {
            u32_from_le(bytes[0], bytes[1], bytes[2], bytes[3])
        } else {
            u32_from_le(bytes[3], bytes[2], bytes[1], bytes[0])
        }
    }

    proof fn lemma_numeric_bytes(self) {
        lemma_u32_le_roundtrip(self);
    }

    fn write_bytes(&self, out: &mut Vec<u8>) {
        let x: u32 = *self;
        let b0: u8 = (x & 0xff) as u8;
        let b1: u8 = ((x >> 8) & 0xff) as u8;
        let b2: u8 = ((x >> 16) & 0xff) as u8;
        let b3: u8 = ((x >> 24) & 0xff) as u8;
        if E::little() {
            out.push(b0);
            out.push(b1);
            out.push(b2);
            out.push(b3);
            assert(out@ == old(out)@ + le_bytes_u32(x));
        } else {
            out.push(b3);
            out.push(b2);
            out.push(b1);
            out.push(b0);
            assert(out@ == old(out)@ + le_bytes_u32(x).reverse());
        }
    }

    fn read_bytes(data: &[u8], pos: usize) -> (r: Result<(Self, usize), DecodeError>) {
        if pos <= data.len() && data.len() - pos >= 4 {
            let b0: u8 = data[pos];
            let b1: u8 = data[pos + 1];
            let b2: u8 = data[pos + 2];
            let b3: u8 = data[pos + 3];
            assert(data@.subrange(pos as int, pos + 4)[0] == b0);
            assert(data@.subrange(pos as int, pos + 4)[1] == b1);
            assert(data@.subrange(pos as int, pos + 4)[2] == b2);
            assert(data@.subrange(pos as int, pos + 4)[3] == b3);
            if E::little() {
                Ok((u32_of_le(b0, b1, b2, b3), pos + 4))
            } else {
                Ok((u32_of_le(b3, b2, b1, b0), pos + 4))
            }
        } else {
            Err(DecodeError { kind: CodecError::TruncatedStream, offset: pos })
        }
    }
}

/// A signed 32-bit number is encoded as the unsigned number with the same
/// bits (two's complement).
impl<E: Endian> NumericBytes<E> for i32 {
    open spec fn size() -> nat {
        4
    }

    open spec fn to_bytes(self) -> Seq<u8> {
        <u32 as NumericBytes<E>>::to_bytes(self as u32)
    }

    open spec fn from_bytes(bytes: Seq<u8>) -> Self {
        <u32 as NumericBytes<E>>::from_bytes(bytes) as i32
    }

    proof fn lemma_numeric_bytes(self) {
        let x = self;
        lemma_u32_le_roundtrip(x as u32);
        assert((x as u32) as i32 == x) by (bit_vector);
    }

    fn write_bytes(&self, out: &mut Vec<u8>) {
        let x: u32 = *self as u32;
        <u32 as NumericBytes<E>>::write_bytes(&x, out);
    }

    fn read_bytes(data: &[u8], pos: usize) -> (r: Result<(Self, usize), DecodeError>) {
        match <u32 as NumericBytes<E>>::read_bytes(data, pos) {
            Ok((x, next)) => Ok((x as i32, next)),
            Err(e) => Err(e),
        }
    }
}

/// The eight bytes of a 64-bit number, lowest first.
pub open spec fn le_bytes_u64(x: u64) -> Seq<u8> {
    seq![
        (x & 0xff) as u8,
        ((x >> 8) & 0xff) as u8,
        ((x >> 16) & 0xff) as u8,
        ((x >> 24) & 0xff) as u8,
        ((x >> 32) & 0xff) as u8,
        ((x >> 40) & 0xff) as u8,
        ((x >> 48) & 0xff) as u8,
        ((x >> 56) & 0xff) as u8,
    ]
}

/// The 64-bit number with the given eight bytes, lowest first.
pub open spec fn u64_from_le(b: Seq<u8>) -> u64 {
    (b[0] as u64) | ((b[1] as u64) << 8) | ((b[2] as u64) << 16) | ((b[3] as u64) << 24) | ((
    b[4] as u64) << 32) | ((b[5] as u64) << 40) | ((b[6] as u64) << 48) | ((b[7] as u64) << 56)
}

proof fn lemma_u64_le_roundtrip(x: u64)
    ensures
        u64_from_le(le_bytes_u64(x)) == x,
{
    assert((((x & 0xff) as u8) as u64) | ((((x >> 8) & 0xff) as u8 as u64) << 8) | ((((x >> 16)
        & 0xff) as u8 as u64) << 16) | ((((x >> 24) & 0xff) as u8 as u64) << 24) | ((((x >> 32)
        & 0xff) as u8 as u64) << 32) | ((((x >> 40) & 0xff) as u8 as u64) << 40) | ((((x >> 48)
        & 0xff) as u8 as u64) << 48) | ((((x >> 56) & 0xff) as u8 as u64) << 56) == x)
        by (bit_vector);
}

impl<E: Endian> NumericBytes<E> for u64 {
    open spec fn size() -> nat {
        8
    }

    open spec fn to_bytes(self) -> Seq<u8> {
        if E::is_little() {
            le_bytes_u64(self)
        } else {
            le_bytes_u64(self).reverse()
        }
    }

    open spec fn from_bytes(bytes: Seq<u8>) -> Self {
        if E::is_little() {
            u64_from_le(bytes)
        } else {
            u64_from_le(bytes.reverse())
        }
    }

    proof fn lemma_numeric_bytes(self) {
        lemma_u64_le_roundtrip(self);
        assert(le_bytes_u64(self).reverse().reverse() =~= le_bytes_u64(self));
    }

    fn write_bytes(&self, out: &mut Vec<u8>) {
        let x: u64 = *self;
        let b0: u8 = (x & 0xff) as u8;
        let b1: u8 = ((x >> 8) & 0xff) as u8;
        let b2: u8 = ((x >> 16) & 0xff) as u8;
        let b3: u8 = ((x >> 24) & 0xff) as u8;
        let b4: u8 = ((x >> 32) & 0xff) as u8;
        let b5: u8 = ((x >> 40) & 0xff) as u8;
        let b6: u8 = ((x >> 48) & 0xff) as u8;
        let b7: u8 = ((x >> 56) & 0xff) as u8;
        if E::little() {
            out.push(b0);
            out.push(b1);
            out.push(b2);
            out.push(b3);
            out.push(b4);
            out.push(b5);
            out.push(b6);
            out.push(b7);
            assert(out@ == old(out)@ + le_bytes_u64(x));
        } else {
            out.push(b7);
            out.push(b6);
            out.push(b5);
            out.push(b4);
            out.push(b3);
            out.push(b2);
            out.push(b1);
            out.push(b0);
            assert(out@ == old(out)@ + le_bytes_u64(x).reverse());
        }
    }

    fn read_bytes(data: &[u8], pos: usize) -> (r: Result<(Self, usize), DecodeError>) {
        if pos <= data.len() && data.len() - pos >= 8 {
            let ghost window = data@.subrange(pos as int, pos + 8);
            assert(forall|k: int| 0 <= k < 8 ==> window[k] == data@[pos + k]);
            let low: u32 = u32_of_le(
                if E::little() {
                    data[pos]
                } else {
                    data[pos + 7]
                },
                if E::little() {
                    data[pos + 1]
                } else {
                    data[pos + 6]
                },
                if E::little() {
                    data[pos + 2]
                } else {
                    data[pos + 5]
                },
                if E::little() {
                    data[pos + 3]
                } else {
                    data[pos + 4]
                },
            );
            let high: u32 = u32_of_le(
                if E::little() {
                    data[pos + 4]
                } else {
                    data[pos + 3]
                },
                if E::little() {
                    data[pos + 5]
                } else {
                    data[pos + 2]
                },
                if E::little() {
                    data[pos + 6]
                } else {
                    data[pos + 1]
                },
                if E::little() {
                    data[pos + 7]
                } else {
                    data[pos]
                },
            );
            let x: u64 = (low as u64) | ((high as u64) << 32);
            proof {
                let b = if E::is_little() {
                    window
                } else {
                    window.reverse()
                };
                lemma_u64_halves(b[0], b[1], b[2], b[3], b[4], b[5], b[6], b[7]);
            }
            Ok((x, pos + 8))
        } else {
            Err(DecodeError { kind: CodecError::TruncatedStream, offset: pos })
        }
    }
}

/// A 64-bit number is its two 32-bit halves side by side.
proof fn lemma_u64_halves(b0: u8, b1: u8, b2: u8, b3: u8, b4: u8, b5: u8, b6: u8, b7: u8)
    ensures
        (u32_from_le(b0, b1, b2, b3) as u64) | ((u32_from_le(b4, b5, b6, b7) as u64) << 32)
            == u64_from_le(seq![b0, b1, b2, b3, b4, b5, b6, b7]),
{
    assert(((((b0 as u32) | ((b1 as u32) << 8) | ((b2 as u32) << 16) | ((b3 as u32) << 24)) as u64)
        | ((((b4 as u32) | ((b5 as u32) << 8) | ((b6 as u32) << 16) | ((b7 as u32) << 24)) as u64)
        << 32)) == (b0 as u64) | ((b1 as u64) << 8) | ((b2 as u64) << 16) | ((b3 as u64) << 24) | (
    (b4 as u64) << 32) | ((b5 as u64) << 40) | ((b6 as u64) << 48) | ((b7 as u64) << 56))
        by (bit_vector);
}

/// A signed 64-bit number is encoded as the unsigned number with the same
/// bits.
impl<E: Endian> NumericBytes<E> for i64 {
    open spec fn size() -> nat {
        8
    }

    open spec fn to_bytes(self) -> Seq<u8> {
        <u64 as NumericBytes<E>>::to_bytes(self as u64)
    }

    open spec fn from_bytes(bytes: Seq<u8>) -> Self {
        <u64 as NumericBytes<E>>::from_bytes(bytes) as i64
    }

    proof fn lemma_numeric_bytes(self) {
        let x = self;
        <u64 as NumericBytes<E>>::lemma_numeric_bytes(x as u64);
        assert((x as u64) as i64 == x) by (bit_vector);
    }

    fn write_bytes(&self, out: &mut Vec<u8>) {
        let x: u64 = *self as u64;
        <u64 as NumericBytes<E>>::write_bytes(&x, out);
    }

    fn read_bytes(data: &[u8], pos: usize) -> (r: Result<(Self, usize), DecodeError>) {
        match <u64 as NumericBytes<E>>::read_bytes(data, pos) {
            Ok((x, next)) => Ok((x as i64, next)),
            Err(e) => Err(e),
        }
    }
}

/// A signed 16-bit number is encoded as the unsigned number with the same
/// bits.
impl<E: Endian> NumericBytes<E> for i16 {
    open spec fn size() -> nat {
        2
    }

    open spec fn to_bytes(self) -> Seq<u8> {
        <u16 as NumericBytes<E>>::to_bytes(self as u16)
    }

    open spec fn from_bytes(bytes: Seq<u8>) -> Self {
        <u16 as NumericBytes<E>>::from_bytes(bytes) as i16
    }

    proof fn lemma_numeric_bytes(self) {
        let x = self;
        <u16 as NumericBytes<E>>::lemma_numeric_bytes(x as u16);
        assert((x as u16) as i16 == x) by (bit_vector);
    }

    fn write_bytes(&self, out: &mut Vec<u8>) {
        let x: u16 = *self as u16;
        <u16 as NumericBytes<E>>::write_bytes(&x, out);
    }

    fn read_bytes(data: &[u8], pos: usize) -> (r: Result<(Self, usize), DecodeError>) {
        match <u16 as NumericBytes<E>>::read_bytes(data, pos) {
            Ok((x, next)) => Ok((x as i16, next)),
            Err(e) => Err(e),
        }
    }
}

/// A signed 8-bit number is encoded as the byte with the same bits.
impl<E: Endian> NumericBytes<E> for i8 {
    open spec fn size() -> nat {
        1
    }

    open spec fn to_bytes(self) -> Seq<u8> {
        seq![self as u8]
    }

    open spec fn from_bytes(bytes: Seq<u8>) -> Self {
        bytes[0] as i8
    }

    proof fn lemma_numeric_bytes(self) {
        let x = self;
        assert((x as u8) as i8 == x) by (bit_vector);
    }

    fn write_bytes(&self, out: &mut Vec<u8>) {
        out.push(*self as u8);
        assert(out@ == old(out)@ + seq![*self as u8]);
    }

    fn read_bytes(data: &[u8], pos: usize) -> (r: Result<(Self, usize), DecodeError>) {
        if pos < data.len() {
            assert(data@.subrange(pos as int, pos + 1)[0] == data@[pos as int]);
            Ok((data[pos] as i8, pos + 1))
        } else {
            Err(DecodeError { kind: CodecError::TruncatedStream, offset: pos })
        }
    }
}

proof fn lemma_u32_le_roundtrip(x: u32)
    ensures
        u32_from_le(
            (x & 0xff) as u8,
            ((x >> 8) & 0xff) as u8,
            ((x >> 16) & 0xff) as u8,
            ((x >> 24) & 0xff) as u8,
        ) == x,
{
    assert(u32_from_le(
        (x & 0xff) as u8,
        ((x >> 8) & 0xff) as u8,
        ((x >> 16) & 0xff) as u8,
        ((x >> 24) & 0xff) as u8,
    ) == x) by (bit_vector);
}

fn u32_of_le(b0: u8, b1: u8, b2: u8, b3: u8) -> (x: u32)
    ensures
        x == u32_from_le(b0, b1, b2, b3),
{
    (b0 as u32) | ((b1 as u32) << 8) | ((b2 as u32) << 16) | ((b3 as u32) << 24)
}

/// The encoder of a number, as a value.
pub open spec fn num_enc<T: NumericBytes<E>, E: Endian>() -> spec_fn(T) -> Seq<u8> {
    |v: T| v.to_bytes()
}

/// The reader of a number, as a value.
pub open spec fn num_dec<T: NumericBytes<E>, E: Endian>() -> spec_fn(Seq<u8>, int) -> Result<
    (T, int),
    DecodeError,
> {
    |s: Seq<u8>, pos: int| parse_num::<T, E>(s, pos)
}

/// A number that was written is read back.
pub proof fn lemma_num_roundtrip<T: NumericBytes<E>, E: Endian>(v: T, s: Seq<u8>, pos: int)
    requires
        has_at(s, pos, v.to_bytes()),
    ensures
        parse_num::<T, E>(s, pos) == Ok::<(T, int), DecodeError>((v, pos + T::size())),
        v.to_bytes().len() == T::size(),
{
    reveal(has_at);
    v.lemma_numeric_bytes();
}

/// Appends the encoding of a number.
pub fn write_num<T: NumericBytes<E>, E: Endian>(out: &mut Vec<u8>, val: T)
    ensures
        final(out)@ == old(out)@ + val.to_bytes(),
{
    val.write_bytes(out)
}

/// Reads a number at `pos`.
pub fn read_num<T: NumericBytes<E>, E: Endian>(data: &[u8], pos: usize) -> (r: Result<
    (T, usize),
    DecodeError,
>)
    ensures
        agrees(r, parse_num::<T, E>(data@, pos as int)),
{
    T::read_bytes(data, pos)
}

/// The encodings of the items of a sequence, one after another.
pub open spec fn items_bytes<T>(items: Seq<T>, enc: spec_fn(T) -> Seq<u8>) -> Seq<u8>
    decreases items.len(),
{
    if items.len() == 0 {
        Seq::empty()
    } else {
        items_bytes(items.drop_last(), enc) + enc(items.last())
    }
}

/// Reads `n` items one after another, from `pos` on. The first item that
/// cannot be read gives the error.
pub open spec fn parse_items<T>(
    s: Seq<u8>,
    pos: int,
    n: nat,
    dec: spec_fn(Seq<u8>, int) -> Result<(T, int), DecodeError>,
) -> Result<(Seq<T>, int), DecodeError>
    decreases n,
{
    if n == 0 {
        Ok((Seq::empty(), pos))
    } else {
        match parse_items(s, pos, (n - 1) as nat, dec) {
            Err(e) => Err(e),
            Ok((items, p)) => match dec(s, p) {
                Err(e) => Err(e),
                Ok((item, q)) => Ok((items.push(item), q)),
            },
        }
    }
}

/// Where the first `k` items cannot be read, no larger number of items can,
/// and the error is the same.
pub proof fn lemma_parse_items_err<T>(
    s: Seq<u8>,
    pos: int,
    k: nat,
    n: nat,
    dec: spec_fn(Seq<u8>, int) -> Result<(T, int), DecodeError>,
)
    requires
        k <= n,
        parse_items(s, pos, k, dec) is Err,
    ensures
        parse_items(s, pos, n, dec) == parse_items(s, pos, k, dec),
    decreases n - k,
{
    if k < n {
        lemma_parse_items_err(s, pos, k, (n - 1) as nat, dec);
    }
}

/// `enc` and `dec` belong together on the values that `good` admits: what
/// `enc` wrote, `dec` reads back, and stops behind it.
pub open spec fn inverse_on<T>(
    good: spec_fn(T) -> bool,
    enc: spec_fn(T) -> Seq<u8>,
    dec: spec_fn(Seq<u8>, int) -> Result<(T, int), DecodeError>,
) -> bool {
    forall|v: T, s: Seq<u8>, pos: int|
        good(v) && #[trigger] has_at(s, pos, enc(v)) ==> #[trigger] dec(s, pos) == Ok::<
            (T, int),
            DecodeError,
        >((v, pos + enc(v).len()))
}

/// Every item of the sequence is admitted by `good`.
pub open spec fn all_good<T>(items: Seq<T>, good: spec_fn(T) -> bool) -> bool {
    forall|i: int| 0 <= i < items.len() ==> good(#[trigger] items[i])
}

/// Items that were written one after another are read back in order.
pub proof fn lemma_items_roundtrip<T>(
    items: Seq<T>,
    good: spec_fn(T) -> bool,
    enc: spec_fn(T) -> Seq<u8>,
    dec: spec_fn(Seq<u8>, int) -> Result<(T, int), DecodeError>,
    s: Seq<u8>,
    pos: int,
)
    requires
        inverse_on(good, enc, dec),
        all_good(items, good),
        has_at(s, pos, items_bytes(items, enc)),
    ensures
        parse_items(s, pos, items.len(), dec) == Ok::<(Seq<T>, int), DecodeError>(
            (items, pos + items_bytes(items, enc).len()),
        ),
    decreases items.len(),
{
    if items.len() > 0 {
        let init = items.drop_last();
        let last = items.last();
        lemma_has_at_concat(s, pos, items_bytes(init, enc), enc(last));
        lemma_items_roundtrip(init, good, enc, dec, s, pos);
        let p = pos + items_bytes(init, enc).len();
        assert(good(last));
        assert(has_at(s, p, enc(last)));
        assert(dec(s, p) == Ok::<(T, int), DecodeError>((last, p + enc(last).len())));
        assert(init.push(last) =~= items);
    } else {
        assert(items =~= Seq::<T>::empty());
    }
}

/// What `enc` wrote of a value that `good` admits, `dec` reads back as
/// `norm` of the value, and stops behind it.
pub open spec fn inverse_up_to<T>(
    good: spec_fn(T) -> bool,
    enc: spec_fn(T) -> Seq<u8>,
    dec: spec_fn(Seq<u8>, int) -> Result<(T, int), DecodeError>,
    norm: spec_fn(T) -> T,
) -> bool {
    forall|v: T, s: Seq<u8>, pos: int|
        good(v) && #[trigger] has_at(s, pos, enc(v)) ==> #[trigger] dec(s, pos) == Ok::<
            (T, int),
            DecodeError,
        >((norm(v), pos + enc(v).len()))
}

/// Items that were written one after another are read back in order, each
/// as `norm` of what was written.
pub proof fn lemma_items_roundtrip_up_to<T>(
    items: Seq<T>,
    good: spec_fn(T) -> bool,
    enc: spec_fn(T) -> Seq<u8>,
    dec: spec_fn(Seq<u8>, int) -> Result<(T, int), DecodeError>,
    norm: spec_fn(T) -> T,
    s: Seq<u8>,
    pos: int,
)
    requires
        inverse_up_to(good, enc, dec, norm),
        all_good(items, good),
        has_at(s, pos, items_bytes(items, enc)),
    ensures
        parse_items(s, pos, items.len(), dec) == Ok::<(Seq<T>, int), DecodeError>(
            (items.map_values(norm), pos + items_bytes(items, enc).len()),
        ),
    decreases items.len(),
{
    if items.len() > 0 {
        let init = items.drop_last();
        let last = items.last();
        lemma_has_at_concat(s, pos, items_bytes(init, enc), enc(last));
        lemma_items_roundtrip_up_to(init, good, enc, dec, norm, s, pos);
        let p = pos + items_bytes(init, enc).len();
        assert(good(last));
        assert(has_at(s, p, enc(last)));
        assert(dec(s, p) == Ok::<(T, int), DecodeError>((norm(last), p + enc(last).len())));
        assert(init.map_values(norm).push(norm(last)) =~= items.map_values(norm));
    } else {
        assert(items.map_values(norm) =~= Seq::<T>::empty());
    }
}

/// The encoder and the reader of a number belong together.
pub proof fn lemma_num_inverse<T: NumericBytes<E>, E: Endian>()
    ensures
        inverse_on(|v: T| true, num_enc::<T, E>(), num_dec::<T, E>()),
{
    assert forall|v: T, s: Seq<u8>, pos: int| #[trigger]
        has_at(s, pos, num_enc::<T, E>()(v)) implies #[trigger] num_dec::<T, E>()(s, pos) == Ok::<
        (T, int),
        DecodeError,
    >((v, pos + num_enc::<T, E>()(v).len())) by {
        lemma_num_roundtrip::<T, E>(v, s, pos);
    }
}

/// An executable reader of a sequence answers as its specification, the
/// vector standing for the sequence of its items.
pub open spec fn agrees_seq<T>(
    r: Result<(Vec<T>, usize), DecodeError>,
    p: Result<(Seq<T>, int), DecodeError>,
) -> bool {
    match r {
        Ok((v, next)) => p == Ok::<(Seq<T>, int), DecodeError>((v@, next as int)),
        Err(e) => p == Err::<(Seq<T>, int), DecodeError>(e),
    }
}

/// Writes the numbers of a slice one after another, with no length in front.
pub fn write_array<T: NumericBytes<E>, E: Endian>(out: &mut Vec<u8>, array: &[T])
    ensures
        final(out)@ == old(out)@ + items_bytes(array@, num_enc::<T, E>()),
{
    let mut i: usize = 0;
    while i < array.len()
        invariant
            i <= array.len(),
            out@ == old(out)@ + items_bytes(array@.take(i as int), num_enc::<T, E>()),
        decreases array.len() - i,
    {
        write_num::<T, E>(out, array[i]);
        proof {
            assert(array@.take(i + 1).drop_last() =~= array@.take(i as int));
        }
        i += 1;
    }
    assert(array@.take(i as int) =~= array@);
}

/// Reads `n` numbers that stand one after another.
pub fn read_array<T: NumericBytes<E>, E: Endian>(data: &[u8], pos: usize, n: usize) -> (r: Result<
    (Vec<T>, usize),
    DecodeError,
>)
    ensures
        agrees_seq(r, parse_items(data@, pos as int, n as nat, num_dec::<T, E>())),
{
    let mut items: Vec<T> = Vec::new();
    let mut at: usize = pos;
    let mut i: usize = 0;
    while i < n
        invariant
            i <= n,
            parse_items(data@, pos as int, i as nat, num_dec::<T, E>()) == Ok::<
                (Seq<T>, int),
                DecodeError,
            >((items@, at as int)),
        decreases n - i,
    {
        match read_num::<T, E>(data, at) {
            Ok((v, next)) => {
                items.push(v);
                at = next;
            },
            Err(e) => {
                proof {
                    lemma_parse_items_err(
                        data@,
                        pos as int,
                        (i + 1) as nat,
                        n as nat,
                        num_dec::<T, E>(),
                    );
                }
                return Err(e);
            },
        }
        i += 1;
    }
    Ok((items, at))
}

/// Three numbers one after another.
pub open spec fn array3_bytes<T: NumericBytes<E>, E: Endian>(a: [T; 3]) -> Seq<u8> {
    a[0].to_bytes() + a[1].to_bytes() + a[2].to_bytes()
}

/// Reads three numbers that stand one after another.
pub open spec fn parse_array3<T: NumericBytes<E>, E: Endian>(s: Seq<u8>, pos: int) -> Result<
    ([T; 3], int),
    DecodeError,
> {
    match parse_num::<T, E>(s, pos) {
        Err(e) => Err(e),
        Ok((a, at1)) => match parse_num::<T, E>(s, at1) {
            Err(e) => Err(e),
            Ok((b, at2)) => match parse_num::<T, E>(s, at2) {
                Err(e) => Err(e),
                Ok((c, at3)) => Ok(([a, b, c], at3)),
            },
        },
    }
}

/// Three numbers that were written are read back.
pub proof fn lemma_array3_roundtrip<T: NumericBytes<E>, E: Endian>(a: [T; 3], s: Seq<u8>, pos: int)
    requires
        has_at(s, pos, array3_bytes::<T, E>(a)),
    ensures
        parse_array3::<T, E>(s, pos) == Ok::<([T; 3], int), DecodeError>(
            (a, pos + array3_bytes::<T, E>(a).len()),
        ),
        array3_bytes::<T, E>(a).len() == 3 * T::size(),
{
    let (x, y, z) = (a[0], a[1], a[2]);
    lemma_has_at_concat(s, pos, x.to_bytes() + y.to_bytes(), z.to_bytes());
    lemma_has_at_concat(s, pos, x.to_bytes(), y.to_bytes());
    lemma_num_roundtrip::<T, E>(x, s, pos);
    lemma_num_roundtrip::<T, E>(y, s, pos + T::size());
    lemma_num_roundtrip::<T, E>(z, s, pos + 2 * T::size());
    assert([x, y, z] =~= a);
}

/// Writes three numbers one after another.
pub fn write_array3<T: NumericBytes<E>, E: Endian>(out: &mut Vec<u8>, a: &[T; 3])
    ensures
        final(out)@ == old(out)@ + array3_bytes::<T, E>(*a),
{
    write_num::<T, E>(out, a[0]);
    write_num::<T, E>(out, a[1]);
    write_num::<T, E>(out, a[2]);
    assert(out@ == old(out)@ + (a[0].to_bytes() + a[1].to_bytes() + a[2].to_bytes()));
}

/// Reads three numbers that stand one after another.
pub fn read_array3<T: NumericBytes<E>, E: Endian>(data: &[u8], pos: usize) -> (r: Result<
    ([T; 3], usize),
    DecodeError,
>)
    ensures
        agrees(r, parse_array3::<T, E>(data@, pos as int)),
{
    let (a, at1) = match read_num::<T, E>(data, pos) {
        Ok(x) => x,
        Err(e) => return Err(e),
    };
    let (b, at2) = match read_num::<T, E>(data, at1) {
        Ok(x) => x,
        Err(e) => return Err(e),
    };
    let (c, at3) = match read_num::<T, E>(data, at2) {
        Ok(x) => x,
        Err(e) => return Err(e),
    };
    Ok(([a, b, c], at3))
}

/// Four numbers one after another.
pub open spec fn array4_bytes<T: NumericBytes<E>, E: Endian>(a: [T; 4]) -> Seq<u8> {
    a[0].to_bytes() + a[1].to_bytes() + a[2].to_bytes() + a[3].to_bytes()
}

/// Reads four numbers that stand one after another.
pub open spec fn parse_array4<T: NumericBytes<E>, E: Endian>(s: Seq<u8>, pos: int) -> Result<
    ([T; 4], int),
    DecodeError,
> {
    match parse_num::<T, E>(s, pos) {
        Err(e) => Err(e),
        Ok((a, at1)) => match parse_num::<T, E>(s, at1) {
            Err(e) => Err(e),
            Ok((b, at2)) => match parse_num::<T, E>(s, at2) {
                Err(e) => Err(e),
                Ok((c, at3)) => match parse_num::<T, E>(s, at3) {
                    Err(e) => Err(e),
                    Ok((d, at4)) => Ok(([a, b, c, d], at4)),
                },
            },
        },
    }
}

/// Four numbers that were written are read back.
pub proof fn lemma_array4_roundtrip<T: NumericBytes<E>, E: Endian>(a: [T; 4], s: Seq<u8>, pos: int)
    requires
        has_at(s, pos, array4_bytes::<T, E>(a)),
    ensures
        parse_array4::<T, E>(s, pos) == Ok::<([T; 4], int), DecodeError>(
            (a, pos + array4_bytes::<T, E>(a).len()),
        ),
        array4_bytes::<T, E>(a).len() == 4 * T::size(),
{
    let (x, y, z, w) = (a[0], a[1], a[2], a[3]);
    lemma_has_at_concat(s, pos, x.to_bytes() + y.to_bytes() + z.to_bytes(), w.to_bytes());
    lemma_has_at_concat(s, pos, x.to_bytes() + y.to_bytes(), z.to_bytes());
    lemma_has_at_concat(s, pos, x.to_bytes(), y.to_bytes());
    lemma_num_roundtrip::<T, E>(x, s, pos);
    lemma_num_roundtrip::<T, E>(y, s, pos + T::size());
    lemma_num_roundtrip::<T, E>(z, s, pos + 2 * T::size());
    lemma_num_roundtrip::<T, E>(w, s, pos + 3 * T::size());
    assert([x, y, z, w] =~= a);
}

/// Writes four numbers one after another.
pub fn write_array4<T: NumericBytes<E>, E: Endian>(out: &mut Vec<u8>, a: &[T; 4])
    ensures
        final(out)@ == old(out)@ + array4_bytes::<T, E>(*a),
{
    write_num::<T, E>(out, a[0]);
    write_num::<T, E>(out, a[1]);
    write_num::<T, E>(out, a[2]);
    write_num::<T, E>(out, a[3]);
    assert(out@ == old(out)@ + (a[0].to_bytes() + a[1].to_bytes() + a[2].to_bytes()
        + a[3].to_bytes()));
}

/// Reads four numbers that stand one after another.
pub fn read_array4<T: NumericBytes<E>, E: Endian>(data: &[u8], pos: usize) -> (r: Result<
    ([T; 4], usize),
    DecodeError,
>)
    ensures
        agrees(r, parse_array4::<T, E>(data@, pos as int)),
{
    let (a, at1) = match read_num::<T, E>(data, pos) {
        Ok(x) => x,
        Err(e) => return Err(e),
    };
    let (b, at2) = match read_num::<T, E>(data, at1) {
        Ok(x) => x,
        Err(e) => return Err(e),
    };
    let (c, at3) = match read_num::<T, E>(data, at2) {
        Ok(x) => x,
        Err(e) => return Err(e),
    };
    let (d, at4) = match read_num::<T, E>(data, at3) {
        Ok(x) => x,
        Err(e) => return Err(e),
    };
    Ok(([a, b, c, d], at4))
}

/// Where `n` items can be read, `n` items come out, and the position does
/// not go back.
pub proof fn lemma_parse_items_len<T>(
    s: Seq<u8>,
    pos: int,
    n: nat,
    dec: spec_fn(Seq<u8>, int) -> Result<(T, int), DecodeError>,
)
    ensures
        parse_items(s, pos, n, dec) matches Ok((items, _)) ==> items.len() == n,
    decreases n,
{
    if n > 0 {
        lemma_parse_items_len(s, pos, (n - 1) as nat, dec);
    }
}

/// A number that can stand in front of a sequence as its length.
pub trait LengthPrefix<E: Endian>: NumericBytes<E> {
    /// The largest length that the type can hold.
    spec fn max_len() -> nat;

    /// The value that stands for a length.
    spec fn of_len(n: nat) -> Self;

    /// The length that a value stands for.
    spec fn as_len(self) -> nat;

    /// A length that fits is held without change.
    proof fn lemma_length(n: nat)
        requires
            n <= Self::max_len(),
        ensures
            Self::of_len(n).as_len() == n,
    ;

    fn from_len(n: usize) -> (r: Option<Self>)
        ensures
            n <= Self::max_len() ==> r == Some(Self::of_len(n as nat)),
            n > Self::max_len() ==> r is None,
    ;

    fn to_len(self) -> (n: usize)
        ensures
            n == self.as_len(),
    ;
}

impl<E: Endian> LengthPrefix<E> for u8 {
    open spec fn max_len() -> nat {
        0xff
    }

    open spec fn of_len(n: nat) -> Self {
        n as u8
    }

    open spec fn as_len(self) -> nat {
        self as nat
    }

    proof fn lemma_length(n: nat) {
    }

    fn from_len(n: usize) -> (r: Option<Self>) {
        if n <= 0xff {
            Some(n as u8)
        } else {
            None
        }
    }

    fn to_len(self) -> (n: usize) {
        self as usize
    }
}

impl<E: Endian> LengthPrefix<E> for u16 {
    open spec fn max_len() -> nat {
        0xffff
    }

    open spec fn of_len(n: nat) -> Self {
        n as u16
    }

    open spec fn as_len(self) -> nat {
        self as nat
    }

    proof fn lemma_length(n: nat) {
    }

    fn from_len(n: usize) -> (r: Option<Self>) {
        if n <= 0xffff {
            Some(n as u16)
        } else {
            None
        }
    }

    fn to_len(self) -> (n: usize) {
        self as usize
    }
}

/// A sequence with its length in front: the length as a number of type `L`,
/// then the items one after another.
pub open spec fn counted_bytes<L: LengthPrefix<E>, E: Endian, T>(
    items: Seq<T>,
    enc: spec_fn(T) -> Seq<u8>,
) -> Seq<u8> {
    L::of_len(items.len()).to_bytes() + items_bytes(items, enc)
}

/// Reads a length of type `L` and then as many items.
pub open spec fn parse_counted<L: LengthPrefix<E>, E: Endian, T>(
    s: Seq<u8>,
    pos: int,
    dec: spec_fn(Seq<u8>, int) -> Result<(T, int), DecodeError>,
) -> Result<(Seq<T>, int), DecodeError> {
    match parse_num::<L, E>(s, pos) {
        Err(e) => Err(e),
        Ok((n, p)) => parse_items(s, p, n.as_len(), dec),
    }
}

/// A sequence that was written with its length in front is read back.
pub proof fn lemma_counted_roundtrip<L: LengthPrefix<E>, E: Endian, T>(
    items: Seq<T>,
    good: spec_fn(T) -> bool,
    enc: spec_fn(T) -> Seq<u8>,
    dec: spec_fn(Seq<u8>, int) -> Result<(T, int), DecodeError>,
    s: Seq<u8>,
    pos: int,
)
    requires
        items.len() <= L::max_len(),
        inverse_on(good, enc, dec),
        all_good(items, good),
        has_at(s, pos, counted_bytes::<L, E, T>(items, enc)),
    ensures
        parse_counted::<L, E, T>(s, pos, dec) == Ok::<(Seq<T>, int), DecodeError>(
            (items, pos + counted_bytes::<L, E, T>(items, enc).len()),
        ),
{
    let n = L::of_len(items.len());
    L::lemma_length(items.len());
    lemma_has_at_concat(s, pos, n.to_bytes(), items_bytes(items, enc));
    lemma_num_roundtrip::<L, E>(n, s, pos);
    lemma_items_roundtrip(items, good, enc, dec, s, pos + L::size());
}

/// Writes a slice of numbers with its length in front. Nothing is written
/// where the length does not fit in `L`.
pub fn write_vec<L: LengthPrefix<E>, T: NumericBytes<E>, E: Endian>(
    out: &mut Vec<u8>,
    vec: &[T],
) -> (r: Result<(), CodecError>)
    ensures
        match r {
            Ok(()) => vec@.len() <= L::max_len() && final(out)@ == old(out)@ + counted_bytes::<
                L,
                E,
                T,
            >(vec@, num_enc::<T, E>()),
            Err(e) => e == CodecError::FormatViolation && vec@.len() > L::max_len() && final(out)@
                == old(out)@,
        },
{
    match L::from_len(vec.len()) {
        Some(n) => {
            write_num::<L, E>(out, n);
            write_array::<T, E>(out, vec);
            assert(out@ == old(out)@ + (n.to_bytes() + items_bytes(vec@, num_enc::<T, E>())));
            Ok(())
        },
        None => Err(CodecError::FormatViolation),
    }
}

/// Reads a length of type `L` and then as many numbers.
pub fn read_vec<L: LengthPrefix<E>, T: NumericBytes<E>, E: Endian>(data: &[u8], pos: usize) -> (r:
    Result<(Vec<T>, usize), DecodeError>)
    ensures
        agrees_seq(r, parse_counted::<L, E, T>(data@, pos as int, num_dec::<T, E>())),
{
    match read_num::<L, E>(data, pos) {
        Ok((n, next)) => read_array::<T, E>(data, next, n.to_len()),
        Err(e) => Err(e),
    }
}

/// The variable-length encoding of an unsigned integer: seven bits to a
/// byte, the lowest seven first, and the top bit of every byte but the last
/// set.
pub open spec fn varint_bytes(v: u64) -> Seq<u8>
    decreases v,
{
    if v < 0x80 {
        seq![v as u8]
    } else {
        seq![((v % 0x80) + 0x80) as u8] + varint_bytes(v / 0x80)
    }
}

/// Goes on reading a variable-length integer at `pos`, where the bytes before
/// gave the low `shift` bits `acc`. A byte that would fill the integer up to
/// or past its sixty-four bits is refused, whether or not it is the last.
pub open spec fn parse_varint_from(s: Seq<u8>, pos: int, shift: u64, acc: u64) -> Result<
    (u64, int),
    DecodeError,
>
    decreases 64 - shift,
{
    if !(0 <= pos < s.len()) {
        Err(at(CodecError::TruncatedStream, pos))
    } else {
        let byte = s[pos];
        let value = acc | (((byte & 0x7F) as u64) << shift);
        if shift + 7 >= 64 {
            Err(at(CodecError::MalformedVarint, pos))
        } else if byte & 0x80 == 0 {
            Ok((value, pos + 1))
        } else {
            parse_varint_from(s, pos + 1, (shift + 7) as u64, value)
        }
    }
}

/// Reads a variable-length integer at `pos`.
pub open spec fn parse_varint(s: Seq<u8>, pos: int) -> Result<(u64, int), DecodeError> {
    parse_varint_from(s, pos, 0, 0)
}

/// The largest integer whose variable-length encoding can be read back.
pub const VARINT_MAX: u64 = 0x7FFF_FFFF_FFFF_FFFF;

proof fn lemma_varint_from(s: Seq<u8>, pos: int, shift: u64, acc: u64, w: u64)
    requires
        has_at(s, pos, varint_bytes(w)),
        shift <= 56,
        shift % 7 == 0,
        w >> ((63 - shift) as u64) == 0,
    ensures
        parse_varint_from(s, pos, shift, acc) == Ok::<(u64, int), DecodeError>(
            (acc | (w << shift), pos + varint_bytes(w).len()),
        ),
    decreases w,
{
    reveal(has_at);
    let bytes = varint_bytes(w);
    assert(s[pos] == s.subrange(pos, pos + bytes.len())[0]);
    let byte = s[pos];
    if w < 0x80 {
        assert(byte == w as u8);
        assert(w < 0x80 ==> ((w as u8) & 0x7F) as u64 == w && (w as u8) & 0x80 == 0)
            by (bit_vector);
    } else {
        let first = ((w % 0x80) + 0x80) as u8;
        let rest = varint_bytes(w / 0x80);
        assert(bytes == seq![first] + rest);
        assert(byte == first);
        lemma_has_at_concat(s, pos, seq![first], rest);
        let low = w % 0x80;
        assert(low < 0x80);
        assert(first == (low + 0x80) as u8);
        assert(low < 0x80 ==> (((low + 0x80) as u8) & 0x7F) as u64 == low && ((low + 0x80) as u8)
            & 0x80 != 0) by (bit_vector);
        assert(shift <= 49) by {
            assert(shift <= 56 && shift % 7 == 0 && w >= 0x80 && w >> ((63 - shift) as u64) == 0
                ==> shift <= 49) by (bit_vector);
        }
        let high = w / 0x80;
        assert(low == w % 0x80 && high == w / 0x80 && shift <= 49 && w >> ((63 - shift) as u64)
            == 0 ==> high >> ((63 - (shift + 7)) as u64) == 0 && (acc | (low << shift)) | (high << (
        (shift + 7) as u64)) == acc | (w << shift)) by (bit_vector);
        lemma_varint_from(s, pos + 1, (shift + 7) as u64, acc | (low << shift), high);
    }
}

/// A variable-length integer below two to the sixty-third that was written
/// is read back.
pub proof fn lemma_varint_roundtrip(v: u64, s: Seq<u8>, pos: int)
    requires
        v <= VARINT_MAX,
        has_at(s, pos, varint_bytes(v)),
    ensures
        parse_varint(s, pos) == Ok::<(u64, int), DecodeError>((v, pos + varint_bytes(v).len())),
{
    assert(v <= 0x7FFF_FFFF_FFFF_FFFFu64 ==> v >> 63 == 0 && 0u64 | (v << 0) == v)
        by (bit_vector);
    lemma_varint_from(s, pos, 0, 0, v);
}

/// Appends the variable-length encoding of an integer.
pub fn write_7bit_encoded_int(out: &mut Vec<u8>, value: u64)
    ensures
        final(out)@ == old(out)@ + varint_bytes(value),
{
    let mut rest: u64 = value;
    while rest >= 0x80
        invariant
            old(out)@ + varint_bytes(value) == out@ + varint_bytes(rest),
        decreases rest,
    {
        let byte: u8 = ((rest & 0x7F) as u8) | 0x80;
        proof {
            let r = rest;
            assert(((r & 0x7F) as u8) | 0x80 == ((r % 0x80) + 0x80) as u8 && r >> 7 == r / 0x80)
                by (bit_vector);
            assert(out@ + (seq![byte] + varint_bytes(rest / 0x80)) == out@.push(byte)
                + varint_bytes(rest / 0x80));
        }
        out.push(byte);
        rest = rest >> 7;
    }
    proof {
        assert(out@ + seq![rest as u8] == out@.push(rest as u8));
    }
    out.push(rest as u8);
}

/// Reads a variable-length integer at `pos`.
pub fn read_7bit_encoded_int(data: &[u8], pos: usize) -> (r: Result<(u64, usize), DecodeError>)
    ensures
        agrees(r, parse_varint(data@, pos as int)),
{
    let mut result: u64 = 0;
    let mut shift: u64 = 0;
    let mut at: usize = pos;
    loop
        invariant
            shift < 64,
            parse_varint(data@, pos as int) == parse_varint_from(data@, at as int, shift, result),
        decreases 64 - shift,
    {
        if at >= data.len() {
            return Err(DecodeError { kind: CodecError::TruncatedStream, offset: at });
        }
        let byte: u8 = data[at];
        result = result | (((byte & 0x7F) as u64) << shift);
        shift = shift + 7;
        if shift >= 64 {
            return Err(DecodeError { kind: CodecError::MalformedVarint, offset: at });
        }
        if byte & 0x80 == 0 {
            return Ok((result, at + 1));
        }
        at = at + 1;
    }
}

/// A value with a layout of its own on the wire.
pub trait Record: Sized {
    /// The mathematical value that a record stands for.
    type Model;

    spec fn model(&self) -> Self::Model;

    /// Whether the layout can hold the value.
    spec fn fits(v: Self::Model) -> bool;

    /// The bytes of a value.
    spec fn layout(v: Self::Model) -> Seq<u8>;

    /// Reads a value at a position.
    spec fn parse(s: Seq<u8>, pos: int) -> Result<(Self::Model, int), DecodeError>;

    /// A value that fits, once written, is read back.
    proof fn lemma_roundtrip(v: Self::Model, s: Seq<u8>, pos: int)
        requires
            Self::fits(v),
            has_at(s, pos, Self::layout(v)),
        ensures
            Self::parse(s, pos) == Ok::<(Self::Model, int), DecodeError>(
                (v, pos + Self::layout(v).len()),
            ),
    ;

    /// Appends the record's bytes; fails, with the output in no particular
    /// state, where the value does not fit.
    fn write(&self, out: &mut Vec<u8>) -> (r: Result<(), CodecError>)
        ensures
            match r {
                Ok(()) => Self::fits(self.model()) && final(out)@ == old(out)@ + Self::layout(
                    self.model(),
                ),
                Err(e) => e == CodecError::FormatViolation && !Self::fits(self.model()),
            },
    ;

    fn read(data: &[u8], pos: usize) -> (r: Result<(Self, usize), DecodeError>)
        ensures
            match r {
                Ok((v, next)) => Self::parse(data@, pos as int) == Ok::<
                    (Self::Model, int),
                    DecodeError,
                >((v.model(), next as int)),
                Err(e) => Self::parse(data@, pos as int) == Err::<(Self::Model, int), DecodeError>(
                    e,
                ),
            },
    ;
}

/// The values that a sequence of records stands for.
pub open spec fn models<T: Record>(items: Seq<T>) -> Seq<T::Model> {
    items.map_values(|x: T| x.model())
}

/// The predicate `fits` of a record type, as a value.
pub open spec fn record_fits<T: Record>() -> spec_fn(T::Model) -> bool {
    |v: T::Model| T::fits(v)
}

/// The layout of a record type, as a value.
pub open spec fn record_enc<T: Record>() -> spec_fn(T::Model) -> Seq<u8> {
    |v: T::Model| T::layout(v)
}

/// The reader of a record type, as a value.
pub open spec fn record_dec<T: Record>() -> spec_fn(Seq<u8>, int) -> Result<
    (T::Model, int),
    DecodeError,
> {
    |s: Seq<u8>, pos: int| T::parse(s, pos)
}

/// The layout and the reader of a record type belong together.
pub proof fn lemma_record_inverse<T: Record>()
    ensures
        inverse_on(record_fits::<T>(), record_enc::<T>(), record_dec::<T>()),
{
    assert forall|v: T::Model, s: Seq<u8>, pos: int|
        record_fits::<T>()(v) && #[trigger] has_at(
            s,
            pos,
            record_enc::<T>()(v),
        ) implies #[trigger] record_dec::<T>()(s, pos) == Ok::<(T::Model, int), DecodeError>(
        (v, pos + record_enc::<T>()(v).len()),
    ) by {
        T::lemma_roundtrip(v, s, pos);
    }
}

/// Writes records one after another; fails where one of them does not fit.
pub fn write_records<T: Record>(out: &mut Vec<u8>, items: &Vec<T>) -> (r: Result<(), CodecError>)
    ensures
        match r {
            Ok(()) => all_good(models(items@), record_fits::<T>()) && final(out)@ == old(out)@
                + items_bytes(models(items@), record_enc::<T>()),
            Err(e) => e == CodecError::FormatViolation && !all_good(
                models(items@),
                record_fits::<T>(),
            ),
        },
{
    let mut i: usize = 0;
    while i < items.len()
        invariant
            i <= items.len(),
            all_good(models(items@.take(i as int)), record_fits::<T>()),
            out@ == old(out)@ + items_bytes(models(items@.take(i as int)), record_enc::<T>()),
        decreases items.len() - i,
    {
        proof {
            assert(models(items@.take(i + 1)).drop_last() =~= models(items@.take(i as int)));
            assert(models(items@.take(i + 1)).last() == items@[i as int].model());
        }
        match items[i].write(out) {
            Ok(()) => {
                proof {
                    let before = models(items@.take(i as int));
                    let after = models(items@.take(i + 1));
                    assert forall|j: int| 0 <= j < after.len() implies record_fits::<T>()(
                        #[trigger] after[j],
                    ) by {
                        if j < i {
                            assert(after[j] == before[j]);
                        }
                    }
                }
            },
            Err(e) => {
                proof {
                    assert(models(items@)[i as int] == items@[i as int].model());
                }
                return Err(e);
            },
        }
        i += 1;
    }
    assert(items@.take(i as int) =~= items@);
    Ok(())
}

/// Reads `n` records that stand one after another.
pub fn read_records<T: Record>(data: &[u8], pos: usize, n: usize) -> (r: Result<
    (Vec<T>, usize),
    DecodeError,
>)
    ensures
        match r {
            Ok((items, next)) => parse_items(data@, pos as int, n as nat, record_dec::<T>())
                == Ok::<(Seq<T::Model>, int), DecodeError>((models(items@), next as int)),
            Err(e) => parse_items(data@, pos as int, n as nat, record_dec::<T>()) == Err::<
                (Seq<T::Model>, int),
                DecodeError,
            >(e),
        },
{
    let mut items: Vec<T> = Vec::new();
    let mut at: usize = pos;
    let mut i: usize = 0;
    assert(models(items@) =~= Seq::<T::Model>::empty());
    while i < n
        invariant
            i <= n,
            parse_items(data@, pos as int, i as nat, record_dec::<T>()) == Ok::<
                (Seq<T::Model>, int),
                DecodeError,
            >((models(items@), at as int)),
        decreases n - i,
    {
        match T::read(data, at) {
            Ok((v, next)) => {
                proof {
                    assert(models(items@.push(v)) =~= models(items@).push(v.model()));
                }
                items.push(v);
                at = next;
            },
            Err(e) => {
                proof {
                    lemma_parse_items_err(
                        data@,
                        pos as int,
                        (i + 1) as nat,
                        n as nat,
                        record_dec::<T>(),
                    );
                }
                return Err(e);
            },
        }
        i += 1;
    }
    Ok((items, at))
}

/// Writes records with their number in front, as a number of type `L`.
pub fn write_counted<L: LengthPrefix<E>, E: Endian, T: Record>(
    out: &mut Vec<u8>,
    items: &Vec<T>,
) -> (r: Result<(), CodecError>)
    ensures
        match r {
            Ok(()) => items@.len() <= L::max_len() && all_good(
                models(items@),
                record_fits::<T>(),
            ) && final(out)@ == old(out)@ + counted_bytes::<L, E, T::Model>(
                models(items@),
                record_enc::<T>(),
            ),
            Err(e) => e == CodecError::FormatViolation && !(items@.len() <= L::max_len()
                && all_good(models(items@), record_fits::<T>())),
        },
{
    match L::from_len(items.len()) {
        Some(n) => {
            write_num::<L, E>(out, n);
            match write_records(out, items) {
                Ok(()) => {
                    assert(out@ == old(out)@ + (n.to_bytes() + items_bytes(
                        models(items@),
                        record_enc::<T>(),
                    )));
                    Ok(())
                },
                Err(e) => Err(e),
            }
        },
        None => Err(CodecError::FormatViolation),
    }
}

/// Reads a number of type `L` and then as many records.
pub fn read_counted<L: LengthPrefix<E>, E: Endian, T: Record>(data: &[u8], pos: usize) -> (r:
    Result<(Vec<T>, usize), DecodeError>)
    ensures
        match r {
            Ok((items, next)) => parse_counted::<L, E, T::Model>(
                data@,
                pos as int,
                record_dec::<T>(),
            ) == Ok::<(Seq<T::Model>, int), DecodeError>((models(items@), next as int)),
            Err(e) => parse_counted::<L, E, T::Model>(data@, pos as int, record_dec::<T>())
                == Err::<(Seq<T::Model>, int), DecodeError>(e),
        },
{
    match read_num::<L, E>(data, pos) {
        Ok((n, next)) => read_records::<T>(data, next, n.to_len()),
        Err(e) => Err(e),
    }
}

/// Appends the bytes of a slice as they are.
pub fn write_raw(out: &mut Vec<u8>, bytes: &[u8])
    ensures
        final(out)@ == old(out)@ + bytes@,
{
    let mut i: usize = 0;
    while i < bytes.len()
        invariant
            i <= bytes.len(),
            out@ == old(out)@ + bytes@.take(i as int),
        decreases bytes.len() - i,
    {
        out.push(bytes[i]);
        proof {
            assert(bytes@.take(i + 1) =~= bytes@.take(i as int).push(bytes@[i as int]));
        }
        i += 1;
    }
    assert(bytes@.take(i as int) =~= bytes@);
}

/// A string on the wire: the number of bytes of its UTF-8 form as a
/// variable-length integer, then those bytes.
pub open spec fn string_bytes(chars: Seq<char>) -> Seq<u8> {
    varint_bytes(encode_utf8(chars).len() as u64) + encode_utf8(chars)
}

/// Reads a string at `pos`: the length, then as many bytes, which must be
/// valid UTF-8.
pub open spec fn parse_string(s: Seq<u8>, pos: int) -> Result<(Seq<char>, int), DecodeError> {
    match parse_varint(s, pos) {
        Err(e) => Err(e),
        Ok((n, p)) => if p + n > s.len() {
            Err(at(CodecError::TruncatedStream, p))
        } else if !valid_utf8(s.subrange(p, p + n)) {
            Err(at(CodecError::InvalidUtf8, p))
        } else {
            Ok((decode_utf8(s.subrange(p, p + n)), p + n))
        },
    }
}

/// A string whose UTF-8 form is at most `VARINT_MAX` bytes long, once
/// written, is read back.
pub proof fn lemma_string_roundtrip(chars: Seq<char>, s: Seq<u8>, pos: int)
    requires
        encode_utf8(chars).len() <= VARINT_MAX,
        has_at(s, pos, string_bytes(chars)),
    ensures
        parse_string(s, pos) == Ok::<(Seq<char>, int), DecodeError>(
            (chars, pos + string_bytes(chars).len()),
        ),
{
    reveal(has_at);
    let bytes = encode_utf8(chars);
    let n = bytes.len() as u64;
    lemma_has_at_concat(s, pos, varint_bytes(n), bytes);
    lemma_varint_roundtrip(n, s, pos);
    encode_utf8_valid_utf8(chars);
    encode_utf8_decode_utf8(chars);
}

/// `String::from_utf8`: the string whose UTF-8 form is `bytes`, or nothing
/// where the bytes are not valid UTF-8.
#[verifier::external_body]
pub(crate) fn string_from_utf8(bytes: Vec<u8>) -> (r: Option<String>)
    ensures
        match r {
            Some(text) => encode_utf8(text@) == bytes@,
            None => !valid_utf8(bytes@),
        },
{
    String::from_utf8(bytes).ok()
}

/// Writes a string with its byte length in front. Nothing is written where
/// the length is above `VARINT_MAX`.
pub fn write_string_7bit(out: &mut Vec<u8>, text: &str) -> (r: Result<(), CodecError>)
    ensures
        match r {
            Ok(()) => encode_utf8(text@).len() <= VARINT_MAX && final(out)@ == old(out)@
                + string_bytes(text@),
            Err(e) => e == CodecError::FormatViolation && encode_utf8(text@).len() > VARINT_MAX
                && final(out)@ == old(out)@,
        },
{
    let bytes = text.as_bytes();
    let n: u64 = bytes.len() as u64;
    if n > VARINT_MAX {
        return Err(CodecError::FormatViolation);
    }
    write_7bit_encoded_int(out, n);
    write_raw(out, bytes);
    assert(out@ == old(out)@ + (varint_bytes(n) + bytes@));
    Ok(())
}

/// Reads a string with its byte length in front.
pub fn read_string_7bit(data: &[u8], pos: usize) -> (r: Result<(String, usize), DecodeError>)
    ensures
        match r {
            Ok((text, next)) => parse_string(data@, pos as int) == Ok::<
                (Seq<char>, int),
                DecodeError,
            >((text@, next as int)),
            Err(e) => parse_string(data@, pos as int) == Err::<(Seq<char>, int), DecodeError>(e),
        },
{
    match read_7bit_encoded_int(data, pos) {
        Err(e) => Err(e),
        Ok((n, at)) => {
            proof {
                lemma_parse_varint_bounds(data@, pos as int);
            }
            if n > (data.len() - at) as u64 {
                return Err(DecodeError { kind: CodecError::TruncatedStream, offset: at });
            }
            let end: usize = at + n as usize;
            let bytes = slice_to_vec(slice_subrange(data, at, end));
            match string_from_utf8(bytes) {
                Some(text) => {
                    proof {
                        encode_utf8_valid_utf8(text@);
                        encode_utf8_decode_utf8(text@);
                    }
                    Ok((text, end))
                },
                None => Err(DecodeError { kind: CodecError::InvalidUtf8, offset: at }),
            }
        },
    }
}

proof fn lemma_parse_varint_from_bounds(s: Seq<u8>, pos: int, shift: u64, acc: u64)
    requires
        shift < 64,
    ensures
        parse_varint_from(s, pos, shift, acc) matches Ok((_, p)) ==> pos < p <= s.len(),
    decreases 64 - shift,
{
    if 0 <= pos < s.len() && shift + 7 < 64 && s[pos] & 0x80 != 0 {
        lemma_parse_varint_from_bounds(
            s,
            pos + 1,
            (shift + 7) as u64,
            acc | (((s[pos] & 0x7F) as u64) << shift),
        );
    }
}

/// A variable-length integer that was read ends inside the input.
pub proof fn lemma_parse_varint_bounds(s: Seq<u8>, pos: int)
    ensures
        parse_varint(s, pos) matches Ok((_, p)) ==> pos < p <= s.len(),
{
    lemma_parse_varint_from_bounds(s, pos, 0, 0);
}

/// One if the flag at `i` is there and set, else zero.
pub open spec fn flag_bit(bools: Seq<bool>, i: int) -> u8 {
    if 0 <= i < bools.len() && bools[i] {
        1
    } else {
        0
    }
}

/// The byte that packs the eight flags from `8 * chunk` on: bit `k` is flag
/// `8 * chunk + k`, and a bit without a flag is zero.
pub open spec fn packed_byte(bools: Seq<bool>, chunk: int) -> u8 {
    let b = 8 * chunk;
    flag_bit(bools, b) | (flag_bit(bools, b + 1) << 1) | (flag_bit(bools, b + 2) << 2) | (flag_bit(
        bools,
        b + 3,
    ) << 3) | (flag_bit(bools, b + 4) << 4) | (flag_bit(bools, b + 5) << 5) | (flag_bit(
        bools,
        b + 6,
    ) << 6) | (flag_bit(bools, b + 7) << 7)
}

/// Flags packed eight to a byte.
pub open spec fn spec_pack_bools(bools: Seq<bool>) -> Seq<u8> {
    Seq::new(((bools.len() + 7) / 8) as nat, |chunk: int| packed_byte(bools, chunk))
}

/// Bit `k` of a byte.
pub open spec fn bit_of(byte: u8, k: int) -> bool {
    (byte >> (k as u8)) & 1 == 1
}

/// The first `count` flags that the bytes hold, or all of them where they
/// hold fewer.
pub open spec fn spec_unpack_bools(bytes: Seq<u8>, count: nat) -> Seq<bool> {
    Seq::new(
        if count <= 8 * bytes.len() {
            count
        } else {
            8 * bytes.len()
        },
        |i: int| bit_of(bytes[i / 8], i % 8),
    )
}

proof fn lemma_packed_bits(f0: u8, f1: u8, f2: u8, f3: u8, f4: u8, f5: u8, f6: u8, f7: u8)
    requires
        f0 <= 1,
        f1 <= 1,
        f2 <= 1,
        f3 <= 1,
        f4 <= 1,
        f5 <= 1,
        f6 <= 1,
        f7 <= 1,
    ensures
        ({
            let byte = f0 | (f1 << 1) | (f2 << 2) | (f3 << 3) | (f4 << 4) | (f5 << 5) | (f6 << 6)
                | (f7 << 7);
            &&& (byte >> 0u8) & 1 == f0
            &&& (byte >> 1u8) & 1 == f1
            &&& (byte >> 2u8) & 1 == f2
            &&& (byte >> 3u8) & 1 == f3
            &&& (byte >> 4u8) & 1 == f4
            &&& (byte >> 5u8) & 1 == f5
            &&& (byte >> 6u8) & 1 == f6
            &&& (byte >> 7u8) & 1 == f7
        }),
{
    assert(f0 <= 1 && f1 <= 1 && f2 <= 1 && f3 <= 1 && f4 <= 1 && f5 <= 1 && f6 <= 1 && f7 <= 1
        ==> ({
        let byte = f0 | (f1 << 1) | (f2 << 2) | (f3 << 3) | (f4 << 4) | (f5 << 5) | (f6 << 6) | (f7
            << 7);
        &&& (byte >> 0u8) & 1 == f0
        &&& (byte >> 1u8) & 1 == f1
        &&& (byte >> 2u8) & 1 == f2
        &&& (byte >> 3u8) & 1 == f3
        &&& (byte >> 4u8) & 1 == f4
        &&& (byte >> 5u8) & 1 == f5
        &&& (byte >> 6u8) & 1 == f6
        &&& (byte >> 7u8) & 1 == f7
    })) by (bit_vector);
}

/// Bit `k` of a packed byte is the flag it was packed from.
pub proof fn lemma_packed_byte_bit(bools: Seq<bool>, chunk: int, k: int)
    requires
        0 <= k < 8,
    ensures
        bit_of(packed_byte(bools, chunk), k) == (flag_bit(bools, 8 * chunk + k) == 1),
{
    let b = 8 * chunk;
    lemma_packed_bits(
        flag_bit(bools, b),
        flag_bit(bools, b + 1),
        flag_bit(bools, b + 2),
        flag_bit(bools, b + 3),
        flag_bit(bools, b + 4),
        flag_bit(bools, b + 5),
        flag_bit(bools, b + 6),
        flag_bit(bools, b + 7),
    );
}

/// Flags that were packed come out again, as many as went in.
pub proof fn lemma_bools_roundtrip(bools: Seq<bool>)
    ensures
        spec_unpack_bools(spec_pack_bools(bools), bools.len()) == bools,
{
    let packed = spec_pack_bools(bools);
    let back = spec_unpack_bools(packed, bools.len());
    assert(back.len() == bools.len());
    assert forall|i: int| 0 <= i < bools.len() implies back[i] == bools[i] by {
        lemma_packed_byte_bit(bools, i / 8, i % 8);
    }
    assert(back =~= bools);
}

fn flag_at(bools: &[bool], start: usize, k: usize) -> (bit: u8)
    requires
        start < bools@.len(),
        k < 8,
    ensures
        bit == flag_bit(bools@, start + k),
{
    if k < bools.len() - start && bools[start + k] {
        1
    } else {
        0
    }
}

/// Packs flags eight to a byte, the first flag of each eight in the lowest
/// bit.
pub fn pack_bools(bools: &[bool]) -> (bytes: Vec<u8>)
    ensures
        bytes@ == spec_pack_bools(bools@),
{
    let chunks: usize = if bools.len() % 8 == 0 {
        bools.len() / 8
    } else {
        bools.len() / 8 + 1
    };
    let mut bytes: Vec<u8> = Vec::new();
    let mut chunk: usize = 0;
    while chunk < chunks
        invariant
            chunk <= chunks,
            chunks == (bools@.len() + 7) / 8,
            bools@.len() <= usize::MAX,
            bytes@.len() == chunk,
            forall|j: int| 0 <= j < chunk ==> bytes@[j] == packed_byte(bools@, j),
        decreases chunks - chunk,
    {
        assert(8 * chunk < bools@.len());
        let b: usize = 8 * chunk;
        let byte: u8 = flag_at(bools, b, 0) | (flag_at(bools, b, 1) << 1) | (flag_at(bools, b, 2)
            << 2) | (flag_at(bools, b, 3) << 3) | (flag_at(bools, b, 4) << 4) | (flag_at(
            bools,
            b,
            5,
        ) << 5) | (flag_at(bools, b, 6) << 6) | (flag_at(bools, b, 7) << 7);
        bytes.push(byte);
        chunk += 1;
    }
    assert(bytes@ =~= spec_pack_bools(bools@));
    bytes
}

/// Unpacks the first `count` flags of the bytes, or all where the bytes hold
/// fewer.
pub fn unpack_bools(bytes: &[u8], count: usize) -> (bools: Vec<bool>)
    ensures
        bools@ == spec_unpack_bools(bytes@, count as nat),
{
    let mut bools: Vec<bool> = Vec::new();
    let mut i: usize = 0;
    while i < count && i / 8 < bytes.len()
        invariant
            i <= count,
            i <= 8 * bytes@.len(),
            bools@.len() == i,
            forall|j: int| 0 <= j < i ==> bools@[j] == bit_of(bytes@[j / 8], j % 8),
        decreases count - i,
    {
        let byte: u8 = bytes[i / 8];
        let k: u8 = (i % 8) as u8;
        bools.push((byte >> k) & 1 != 0);
        proof {
            assert(((byte >> k) & 1 != 0) == ((byte >> k) & 1 == 1)) by (bit_vector);
        }
        i += 1;
    }
    assert(bools@ =~= spec_unpack_bools(bytes@, count as nat));
    bools
}

/// The RGB565 word of a colour: the top five bits of red, the top six of
/// green and the top five of blue, from the most significant bit down.
pub open spec fn spec_pack_color(rgb: [u8; 3]) -> u16 {
    (((rgb[0] & 0xF8) as u16) << 8) | (((rgb[1] & 0xFC) as u16) << 3) | (((rgb[2] & 0xF8) as u16)
        >> 3)
}

/// The colour a RGB565 word stands for: each channel shifted back to the top
/// of its byte, the bits that packing dropped left at zero.
pub open spec fn spec_unpack_color(rgb565: u16) -> [u8; 3] {
    [
        ((rgb565 >> 8) & 0xF8) as u8,
        ((rgb565 >> 3) & 0xFC) as u8,
        ((rgb565 << 3) & 0xF8) as u8,
    ]
}

/// Packs a colour into its RGB565 word.
pub fn pack_color(rgb: [u8; 3]) -> (packed: u16)
    ensures
        packed == spec_pack_color(rgb),
{
    let r: u8 = rgb[0];
    let g: u8 = rgb[1];
    let b: u8 = rgb[2];
    (((r & 0xF8) as u16) << 8) | (((g & 0xFC) as u16) << 3) | (((b & 0xF8) as u16) >> 3)
}

/// Unpacks a RGB565 word into a colour.
pub fn unpack_color(rgb565: u16) -> (rgb: [u8; 3])
    ensures
        rgb == spec_unpack_color(rgb565),
{
    [
        ((rgb565 >> 8) & 0xF8) as u8,
        ((rgb565 >> 3) & 0xFC) as u8,
        ((rgb565 << 3) & 0xF8) as u8,
    ]
}

/// What packing keeps of a colour: the top five bits of red and of blue and
/// the top six of green.
pub open spec fn truncated_color(rgb: [u8; 3]) -> [u8; 3] {
    [rgb[0] & 0xF8, rgb[1] & 0xFC, rgb[2] & 0xF8]
}

/// Unpacking a packed colour gives the colour with each channel truncated to
/// the bits that the packing keeps.
pub proof fn lemma_unpack_pack_color(rgb: [u8; 3])
    ensures
        spec_unpack_color(spec_pack_color(rgb)) == truncated_color(rgb),
{
    let (r, g, b) = (rgb[0], rgb[1], rgb[2]);
    let w = spec_pack_color(rgb);
    assert(w == (((r & 0xF8) as u16) << 8) | (((g & 0xFC) as u16) << 3) | (((b & 0xF8) as u16)
        >> 3));
    assert(w == (((r & 0xF8) as u16) << 8) | (((g & 0xFC) as u16) << 3) | (((b & 0xF8) as u16)
        >> 3) ==> ((w >> 8) & 0xF8) as u8 == r & 0xF8 && ((w >> 3) & 0xFC) as u8 == g & 0xFC && ((w
        << 3) & 0xF8) as u8 == b & 0xF8) by (bit_vector);
    assert(spec_unpack_color(w) =~= truncated_color(rgb));
}

/// A colour that went through packing once is not changed by going through
/// it again.
pub proof fn lemma_truncated_color_stable(rgb: [u8; 3])
    ensures
        truncated_color(truncated_color(rgb)) == truncated_color(rgb),
{
    let (r, g, b) = (rgb[0], rgb[1], rgb[2]);
    assert((r & 0xF8) & 0xF8 == r & 0xF8 && (g & 0xFC) & 0xFC == g & 0xFC && (b & 0xF8) & 0xF8 == b
        & 0xF8) by (bit_vector);
    assert(truncated_color(truncated_color(rgb)) =~= truncated_color(rgb));
}

} // verus!
