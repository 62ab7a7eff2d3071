//! The baseline layout of roots, blocks and metadata. Every number is
//! little-endian.

use vstd::prelude::*;
use vstd::utf8::{decode_utf8, encode_utf8, valid_utf8};
use vstd::utf8::{encode_utf8_decode_utf8, encode_utf8_valid_utf8};
use crate::block::{
    gradient_views, link_lists, BlockMetadata, Gradient, GradientView, MetadataView, TypeSettings,
    TypeSettingsView,
};
use crate::error::{at, CodecError, DecodeError};
use crate::io::utils::{
    all_good, array3_bytes, array4_bytes, counted_bytes, has_at, items_bytes,
    lemma_array3_roundtrip, lemma_array4_roundtrip, lemma_counted_roundtrip, lemma_has_at_concat,
    lemma_num_inverse, lemma_record_inverse, models, num_dec, num_enc, parse_array3, parse_array4,
    parse_counted, read_array3, read_array4, read_counted, read_vec, read_num, record_dec,
    record_enc, record_fits, string_from_utf8, write_array3, write_array4, write_counted,
    write_num, write_vec, parse_items, parse_num, read_records, write_records,
    lemma_items_roundtrip, lemma_num_roundtrip, NumericBytes, Record, LE,
};
use crate::links::{map_link_list, map_links, LinkMap};

verus! {

/// A colour is its four channel bytes.
impl Record for [u8; 4] {
    type Model = [u8; 4];

    open spec fn model(&self) -> [u8; 4] {
        *self
    }

    open spec fn fits(v: [u8; 4]) -> bool {
        true
    }

    open spec fn layout(v: [u8; 4]) -> Seq<u8> {
        array4_bytes::<u8, LE>(v)
    }

    open spec fn parse(s: Seq<u8>, pos: int) -> Result<([u8; 4], int), DecodeError> {
        parse_array4::<u8, LE>(s, pos)
    }

    proof fn lemma_roundtrip(v: [u8; 4], s: Seq<u8>, pos: int) {
        lemma_array4_roundtrip::<u8, LE>(v, s, pos);
    }

    fn write(&self, out: &mut Vec<u8>) -> (r: Result<(), CodecError>) {
        write_array4::<u8, LE>(out, self);
        Ok(())
    }

    fn read(data: &[u8], pos: usize) -> (r: Result<(Self, usize), DecodeError>) {
        read_array4::<u8, LE>(data, pos)
    }
}

/// A vector is three singles.
impl Record for [u32; 3] {
    type Model = [u32; 3];

    open spec fn model(&self) -> [u32; 3] {
        *self
    }

    open spec fn fits(v: [u32; 3]) -> bool {
        true
    }

    open spec fn layout(v: [u32; 3]) -> Seq<u8> {
        array3_bytes::<u32, LE>(v)
    }

    open spec fn parse(s: Seq<u8>, pos: int) -> Result<([u32; 3], int), DecodeError> {
        parse_array3::<u32, LE>(s, pos)
    }

    proof fn lemma_roundtrip(v: [u32; 3], s: Seq<u8>, pos: int) {
        lemma_array3_roundtrip::<u32, LE>(v, s, pos);
    }

    fn write(&self, out: &mut Vec<u8>) -> (r: Result<(), CodecError>) {
        write_array3::<u32, LE>(out, self);
        Ok(())
    }

    fn read(data: &[u8], pos: usize) -> (r: Result<(Self, usize), DecodeError>) {
        read_array3::<u32, LE>(data, pos)
    }
}

/// Block indices as the signed 32-bit numbers that a field holds them in.
pub open spec fn widen_u16(links: Seq<u16>) -> Seq<i32> {
    links.map_values(|l: u16| l as i32)
}

/// The rule that keeps a signed 32-bit number where it is a block index.
pub open spec fn narrow_u16() -> spec_fn(i32) -> Option<u16> {
    |v: i32|
        if 0 <= v <= 0xffff {
            Some(v as u16)
        } else {
            None
        }
}

/// Block indices that were widened come back unchanged.
pub proof fn lemma_narrow_widen_u16(links: Seq<u16>)
    ensures
        map_links(widen_u16(links), narrow_u16()) == links,
    decreases links.len(),
{
    if links.len() > 0 {
        lemma_narrow_widen_u16(links.drop_last());
        assert(widen_u16(links).drop_last() =~= widen_u16(links.drop_last()));
        assert(links.drop_last().push(links.last()) =~= links);
    } else {
        assert(links =~= Seq::<u16>::empty());
    }
}

/// The executable form of `narrow_u16`.
pub struct NarrowU16;

impl LinkMap<i32, u16> for NarrowU16 {
    open spec fn valid(&self) -> bool {
        true
    }

    open spec fn rule(&self) -> spec_fn(i32) -> Option<u16> {
        narrow_u16()
    }

    fn apply(&self, link: i32) -> (r: Option<u16>) {
        if 0 <= link && link <= 0xffff {
            Some(link as u16)
        } else {
            None
        }
    }
}

fn widen_links(links: &Vec<u16>) -> (wide: Vec<i32>)
    ensures
        wide@ == widen_u16(links@),
{
    let mut wide: Vec<i32> = Vec::new();
    let mut i: usize = 0;
    while i < links.len()
        invariant
            i <= links.len(),
            wide@ == widen_u16(links@.take(i as int)),
        decreases links.len() - i,
    {
        wide.push(links[i] as i32);
        proof {
            assert(widen_u16(links@.take(i + 1)) =~= widen_u16(links@.take(i as int)).push(
                links@[i as int] as i32,
            ));
        }
        i += 1;
    }
    assert(links@.take(i as int) =~= links@);
    wide
}

/// A field is the list of its links: their number as a 16-bit count, then
/// each as a signed 32-bit number. What is read and is no block index is
/// dropped.
impl Record for Vec<u16> {
    type Model = Seq<u16>;

    open spec fn model(&self) -> Seq<u16> {
        self@
    }

    open spec fn fits(v: Seq<u16>) -> bool {
        v.len() <= 0xffff
    }

    open spec fn layout(v: Seq<u16>) -> Seq<u8> {
        counted_bytes::<u16, LE, i32>(widen_u16(v), num_enc::<i32, LE>())
    }

    open spec fn parse(s: Seq<u8>, pos: int) -> Result<(Seq<u16>, int), DecodeError> {
        match parse_counted::<u16, LE, i32>(s, pos, num_dec::<i32, LE>()) {
            Err(e) => Err(e),
            Ok((wide, p)) => Ok((map_links(wide, narrow_u16()), p)),
        }
    }

    proof fn lemma_roundtrip(v: Seq<u16>, s: Seq<u8>, pos: int) {
        lemma_num_inverse::<i32, LE>();
        lemma_counted_roundtrip::<u16, LE, i32>(
            widen_u16(v),
            |x: i32| true,
            num_enc::<i32, LE>(),
            num_dec::<i32, LE>(),
            s,
            pos,
        );
        lemma_narrow_widen_u16(v);
    }

    fn write(&self, out: &mut Vec<u8>) -> (r: Result<(), CodecError>) {
        let wide = widen_links(self);
        write_vec::<u16, i32, LE>(out, wide.as_slice())
    }

    fn read(data: &[u8], pos: usize) -> (r: Result<(Self, usize), DecodeError>) {
        match read_vec::<u16, i32, LE>(data, pos) {
            Ok((wide, next)) => Ok((map_link_list(&wide, &NarrowU16), next)),
            Err(e) => Err(e),
        }
    }
}

/// The bytes of a 16-bit number.
pub open spec fn u16_bytes(x: u16) -> Seq<u8> {
    <u16 as NumericBytes<LE>>::to_bytes(x)
}

/// A list of 32-bit numbers with a 16-bit count in front.
pub open spec fn words_bytes(words: Seq<u32>) -> Seq<u8> {
    counted_bytes::<u16, LE, u32>(words, num_enc::<u32, LE>())
}

/// Reads a list of 32-bit numbers with a 16-bit count in front.
pub open spec fn parse_words(s: Seq<u8>, pos: int) -> Result<(Seq<u32>, int), DecodeError> {
    parse_counted::<u16, LE, u32>(s, pos, num_dec::<u32, LE>())
}

/// A list of 32-bit numbers of at most 65535 items, once written, is read
/// back.
pub proof fn lemma_words_roundtrip(words: Seq<u32>, s: Seq<u8>, pos: int)
    requires
        words.len() <= 0xffff,
        has_at(s, pos, words_bytes(words)),
    ensures
        parse_words(s, pos) == Ok::<(Seq<u32>, int), DecodeError>(
            (words, pos + words_bytes(words).len()),
        ),
{
    lemma_num_inverse::<u32, LE>();
    lemma_counted_roundtrip::<u16, LE, u32>(
        words,
        |x: u32| true,
        num_enc::<u32, LE>(),
        num_dec::<u32, LE>(),
        s,
        pos,
    );
}

/// A list of records with a 16-bit count in front.
pub open spec fn list_bytes<T: Record>(items: Seq<T::Model>) -> Seq<u8> {
    counted_bytes::<u16, LE, T::Model>(items, record_enc::<T>())
}

/// Reads a list of records with a 16-bit count in front.
pub open spec fn parse_list<T: Record>(s: Seq<u8>, pos: int) -> Result<
    (Seq<T::Model>, int),
    DecodeError,
> {
    parse_counted::<u16, LE, T::Model>(s, pos, record_dec::<T>())
}

/// Whether a list of records can be written with a 16-bit count.
pub open spec fn list_fits<T: Record>(items: Seq<T::Model>) -> bool {
    items.len() <= 0xffff && all_good(items, record_fits::<T>())
}

/// A list of records that fits, once written, is read back.
pub proof fn lemma_list_roundtrip<T: Record>(items: Seq<T::Model>, s: Seq<u8>, pos: int)
    requires
        list_fits::<T>(items),
        has_at(s, pos, list_bytes::<T>(items)),
    ensures
        parse_list::<T>(s, pos) == Ok::<(Seq<T::Model>, int), DecodeError>(
            (items, pos + list_bytes::<T>(items).len()),
        ),
{
    lemma_record_inverse::<T>();
    lemma_counted_roundtrip::<u16, LE, T::Model>(
        items,
        record_fits::<T>(),
        record_enc::<T>(),
        record_dec::<T>(),
        s,
        pos,
    );
}

/// The bytes of a gradient: its colour keys, then the times of the colour
/// keys, the alpha keys and the times of the alpha keys, each list with a
/// 16-bit count in front.
pub open spec fn gradient_bytes(g: GradientView) -> Seq<u8> {
    list_bytes::<[u8; 4]>(g.color_keys) + words_bytes(g.color_time_keys) + words_bytes(
        g.alpha_keys,
    ) + words_bytes(g.alpha_time_keys)
}

/// Whether the layout can hold a gradient: none of its lists has more than
/// 65535 items.
pub open spec fn gradient_fits(g: GradientView) -> bool {
    &&& g.color_keys.len() <= 0xffff
    &&& g.color_time_keys.len() <= 0xffff
    &&& g.alpha_keys.len() <= 0xffff
    &&& g.alpha_time_keys.len() <= 0xffff
}

/// Reads a gradient.
#[verifier::opaque]
pub open spec fn parse_gradient(s: Seq<u8>, pos: int) -> Result<(GradientView, int), DecodeError> {
    match parse_list::<[u8; 4]>(s, pos) {
        Err(e) => Err(e),
        Ok((color_keys, at1)) => match parse_words(s, at1) {
            Err(e) => Err(e),
            Ok((color_time_keys, at2)) => match parse_words(s, at2) {
                Err(e) => Err(e),
                Ok((alpha_keys, at3)) => match parse_words(s, at3) {
                    Err(e) => Err(e),
                    Ok((alpha_time_keys, at4)) => Ok(
                        (
                            GradientView {
                                color_keys,
                                color_time_keys,
                                alpha_keys,
                                alpha_time_keys,
                            },
                            at4,
                        ),
                    ),
                },
            },
        },
    }
}

/// Records that are their own model make up their own list of models.
pub proof fn lemma_models_colors(items: Seq<[u8; 4]>)
    ensures
        models::<[u8; 4]>(items) == items,
        all_good(items, record_fits::<[u8; 4]>()),
{
    assert(models::<[u8; 4]>(items) =~= items);
}

/// Vectors are their own models.
pub proof fn lemma_models_vectors(items: Seq<[u32; 3]>)
    ensures
        models::<[u32; 3]>(items) == items,
        all_good(items, record_fits::<[u32; 3]>()),
{
    assert(models::<[u32; 3]>(items) =~= items);
}

impl Record for Gradient {
    type Model = GradientView;

    open spec fn model(&self) -> GradientView {
        self@
    }

    open spec fn fits(v: GradientView) -> bool {
        gradient_fits(v)
    }

    open spec fn layout(v: GradientView) -> Seq<u8> {
        gradient_bytes(v)
    }

    open spec fn parse(s: Seq<u8>, pos: int) -> Result<(GradientView, int), DecodeError> {
        parse_gradient(s, pos)
    }

    proof fn lemma_roundtrip(v: GradientView, s: Seq<u8>, pos: int) {
        reveal(parse_gradient);
        let a = list_bytes::<[u8; 4]>(v.color_keys);
        let b = words_bytes(v.color_time_keys);
        let c = words_bytes(v.alpha_keys);
        let d = words_bytes(v.alpha_time_keys);
        lemma_has_at_concat(s, pos, a + b + c, d);
        lemma_has_at_concat(s, pos, a + b, c);
        lemma_has_at_concat(s, pos, a, b);
        lemma_models_colors(v.color_keys);
        lemma_list_roundtrip::<[u8; 4]>(v.color_keys, s, pos);
        lemma_words_roundtrip(v.color_time_keys, s, pos + a.len());
        lemma_words_roundtrip(v.alpha_keys, s, pos + a.len() + b.len());
        lemma_words_roundtrip(v.alpha_time_keys, s, pos + a.len() + b.len() + c.len());
    }

    fn write(&self, out: &mut Vec<u8>) -> (r: Result<(), CodecError>) {
        proof {
            lemma_models_colors(self.color_keys@);
        }
        match write_counted::<u16, LE, [u8; 4]>(out, &self.color_keys) {
            Ok(()) => {},
            Err(e) => return Err(e),
        }
        match write_vec::<u16, u32, LE>(out, self.color_time_keys.as_slice()) {
            Ok(()) => {},
            Err(e) => return Err(e),
        }
        match write_vec::<u16, u32, LE>(out, self.alpha_keys.as_slice()) {
            Ok(()) => {},
            Err(e) => return Err(e),
        }
        match write_vec::<u16, u32, LE>(out, self.alpha_time_keys.as_slice()) {
            Ok(()) => {},
            Err(e) => return Err(e),
        }
        assert(out@ == old(out)@ + gradient_bytes(self@));
        Ok(())
    }

    fn read(data: &[u8], pos: usize) -> (r: Result<(Self, usize), DecodeError>) {
        proof {
            reveal(parse_gradient);
        }
        let (color_keys, at1) = match read_counted::<u16, LE, [u8; 4]>(data, pos) {
            Ok(x) => x,
            Err(e) => return Err(e),
        };
        proof {
            lemma_models_colors(color_keys@);
        }
        let (color_time_keys, at2) = match read_vec::<u16, u32, LE>(data, at1) {
            Ok(x) => x,
            Err(e) => return Err(e),
        };
        let (alpha_keys, at3) = match read_vec::<u16, u32, LE>(data, at2) {
            Ok(x) => x,
            Err(e) => return Err(e),
        };
        let (alpha_time_keys, at4) = match read_vec::<u16, u32, LE>(data, at3) {
            Ok(x) => x,
            Err(e) => return Err(e),
        };
        Ok((Gradient { color_keys, color_time_keys, alpha_keys, alpha_time_keys }, at4))
    }
}

/// Writes a gradient.
pub fn write_gradient(out: &mut Vec<u8>, gradient: &Gradient) -> (r: Result<(), CodecError>)
    ensures
        match r {
            Ok(()) => gradient_fits(gradient@) && final(out)@ == old(out)@ + gradient_bytes(
                gradient@,
            ),
            Err(e) => e == CodecError::FormatViolation && !gradient_fits(gradient@),
        },
{
    gradient.write(out)
}

/// Reads a gradient.
pub fn read_gradient(data: &[u8], pos: usize) -> (r: Result<(Gradient, usize), DecodeError>)
    ensures
        match r {
            Ok((g, next)) => parse_gradient(data@, pos as int) == Ok::<
                (GradientView, int),
                DecodeError,
            >((g@, next as int)),
            Err(e) => parse_gradient(data@, pos as int) == Err::<(GradientView, int), DecodeError>(
                e,
            ),
        },
{
    Gradient::read(data, pos)
}

/// The type of block that carries the settings of a math block.
pub const MATH_BLOCK: u8 = 129;

/// The layouts that the settings of a block type can have.
#[derive(Debug, Clone, Copy, PartialEq, Eq, Structural)]
pub enum SettingsLayout {
    /// A function, the order of the incoming connections and the active
    /// slots.
    MathBlock,
}

/// The registry of settings layouts, by block type. A type without an entry
/// has no settings: nothing is written for it and nothing is read.
pub open spec fn registered_layout(id: u8) -> Option<SettingsLayout> {
    if id == MATH_BLOCK {
        Some(SettingsLayout::MathBlock)
    } else {
        None
    }
}

/// Looks the layout of a block type's settings up in the registry.
pub fn settings_layout(id: u8) -> (layout: Option<SettingsLayout>)
    ensures
        layout == registered_layout(id),
{
    if id == MATH_BLOCK {
        Some(SettingsLayout::MathBlock)
    } else {
        None
    }
}

/// A list of bytes with a 16-bit count in front.
pub open spec fn bytes16(bytes: Seq<u8>) -> Seq<u8> {
    counted_bytes::<u16, LE, u8>(bytes, num_enc::<u8, LE>())
}

/// Reads a list of bytes with a 16-bit count in front.
pub open spec fn parse_bytes16(s: Seq<u8>, pos: int) -> Result<(Seq<u8>, int), DecodeError> {
    parse_counted::<u16, LE, u8>(s, pos, num_dec::<u8, LE>())
}

/// A list of bytes with an 8-bit count in front.
pub open spec fn bytes8(bytes: Seq<u8>) -> Seq<u8> {
    counted_bytes::<u8, LE, u8>(bytes, num_enc::<u8, LE>())
}

/// Reads a list of bytes with an 8-bit count in front.
pub open spec fn parse_bytes8(s: Seq<u8>, pos: int) -> Result<(Seq<u8>, int), DecodeError> {
    parse_counted::<u8, LE, u8>(s, pos, num_dec::<u8, LE>())
}

/// A list of at most 65535 bytes, once written behind its 16-bit count, is
/// read back.
pub proof fn lemma_bytes16_roundtrip(bytes: Seq<u8>, s: Seq<u8>, pos: int)
    requires
        bytes.len() <= 0xffff,
        has_at(s, pos, bytes16(bytes)),
    ensures
        parse_bytes16(s, pos) == Ok::<(Seq<u8>, int), DecodeError>(
            (bytes, pos + bytes16(bytes).len()),
        ),
{
    lemma_num_inverse::<u8, LE>();
    lemma_counted_roundtrip::<u16, LE, u8>(
        bytes,
        |x: u8| true,
        num_enc::<u8, LE>(),
        num_dec::<u8, LE>(),
        s,
        pos,
    );
}

/// A list of at most 255 bytes, once written behind its 8-bit count, is read
/// back.
pub proof fn lemma_bytes8_roundtrip(bytes: Seq<u8>, s: Seq<u8>, pos: int)
    requires
        bytes.len() <= 0xff,
        has_at(s, pos, bytes8(bytes)),
    ensures
        parse_bytes8(s, pos) == Ok::<(Seq<u8>, int), DecodeError>(
            (bytes, pos + bytes8(bytes).len()),
        ),
{
    lemma_num_inverse::<u8, LE>();
    lemma_counted_roundtrip::<u8, LE, u8>(
        bytes,
        |x: u8| true,
        num_enc::<u8, LE>(),
        num_dec::<u8, LE>(),
        s,
        pos,
    );
}

/// The settings as a block of type `id` has them on the wire: those of a
/// math block for a math block, where settings that are none count as a math
/// block's without function, order and slots; and none for any other type.
pub open spec fn canonical_settings(id: u8, settings: TypeSettingsView) -> TypeSettingsView {
    match registered_layout(id) {
        Some(SettingsLayout::MathBlock) => {
            match settings {
                TypeSettingsView::MathBlock { .. } => settings,
                TypeSettingsView::Empty => TypeSettingsView::MathBlock {
                    function: Seq::empty(),
                    incoming_connections_order: Seq::empty(),
                    slots: Seq::empty(),
                },
            }
        },
        None => {
            TypeSettingsView::Empty
        },
    }
}

/// The bytes of the settings of a block of type `id`. A math block has its
/// function's UTF-8 bytes behind a 16-bit count, then the order of its
/// incoming connections and its active slots, each behind an 8-bit count.
/// A block of another type has no bytes.
pub open spec fn settings_bytes(id: u8, settings: TypeSettingsView) -> Seq<u8> {
    match canonical_settings(id, settings) {
        TypeSettingsView::MathBlock { function, incoming_connections_order, slots } => bytes16(
            encode_utf8(function),
        ) + bytes8(incoming_connections_order) + bytes8(slots),
        TypeSettingsView::Empty => Seq::empty(),
    }
}

/// Whether the layout can hold the settings of a block of type `id`.
pub open spec fn settings_fit(id: u8, settings: TypeSettingsView) -> bool {
    match canonical_settings(id, settings) {
        TypeSettingsView::MathBlock { function, incoming_connections_order, slots } => {
            &&& encode_utf8(function).len() <= 0xffff
            &&& incoming_connections_order.len() <= 0xff
            &&& slots.len() <= 0xff
        },
        TypeSettingsView::Empty => true,
    }
}

/// Reads the settings of a block of type `id`.
#[verifier::opaque]
pub open spec fn parse_settings(id: u8, s: Seq<u8>, pos: int) -> Result<
    (TypeSettingsView, int),
    DecodeError,
> {
    match registered_layout(id) {
        Some(SettingsLayout::MathBlock) => {
            match parse_bytes16(s, pos) {
                Err(e) => Err(e),
                Ok((text, at1)) => if !valid_utf8(text) {
                    Err(at(CodecError::InvalidUtf8, pos))
                } else {
                    match parse_bytes8(s, at1) {
                        Err(e) => Err(e),
                        Ok((incoming_connections_order, at2)) => match parse_bytes8(s, at2) {
                            Err(e) => Err(e),
                            Ok((slots, at3)) => Ok(
                                (
                                    TypeSettingsView::MathBlock {
                                        function: decode_utf8(text),
                                        incoming_connections_order,
                                        slots,
                                    },
                                    at3,
                                ),
                            ),
                        },
                    }
                },
            }
        },
        None => {
            Ok((TypeSettingsView::Empty, pos))
        },
    }
}

/// Settings that fit, once written, are read back in their canonical form.
pub proof fn lemma_settings_roundtrip(id: u8, settings: TypeSettingsView, s: Seq<u8>, pos: int)
    requires
        settings_fit(id, settings),
        has_at(s, pos, settings_bytes(id, settings)),
    ensures
        parse_settings(id, s, pos) == Ok::<(TypeSettingsView, int), DecodeError>(
            (canonical_settings(id, settings), pos + settings_bytes(id, settings).len()),
        ),
{
    reveal(parse_settings);
    match canonical_settings(id, settings) {
        TypeSettingsView::MathBlock { function, incoming_connections_order, slots } => {
            let a = bytes16(encode_utf8(function));
            let b = bytes8(incoming_connections_order);
            let c = bytes8(slots);
            lemma_has_at_concat(s, pos, a + b, c);
            lemma_has_at_concat(s, pos, a, b);
            lemma_bytes16_roundtrip(encode_utf8(function), s, pos);
            lemma_bytes8_roundtrip(incoming_connections_order, s, pos + a.len());
            lemma_bytes8_roundtrip(slots, s, pos + a.len() + b.len());
            encode_utf8_valid_utf8(function);
            encode_utf8_decode_utf8(function);
        },
        TypeSettingsView::Empty => {},
    }
}

/// Writes the settings of a block of type `id`.
pub fn write_type_settings(out: &mut Vec<u8>, id: u8, settings: &TypeSettings) -> (r: Result<
    (),
    CodecError,
>)
    ensures
        match r {
            Ok(()) => settings_fit(id, settings@) && final(out)@ == old(out)@ + settings_bytes(
                id,
                settings@,
            ),
            Err(e) => e == CodecError::FormatViolation && !settings_fit(id, settings@),
        },
{
    match settings_layout(id) {
        Some(SettingsLayout::MathBlock) => {
            match settings {
                TypeSettings::MathBlock { function, incoming_connections_order, slots } => {
                    match write_vec::<u16, u8, LE>(out, function.as_str().as_bytes()) {
                        Ok(()) => {},
                        Err(e) => return Err(e),
                    }
                    match write_vec::<u8, u8, LE>(out, incoming_connections_order.as_slice()) {
                        Ok(()) => {},
                        Err(e) => return Err(e),
                    }
                    match write_vec::<u8, u8, LE>(out, slots.as_slice()) {
                        Ok(()) => {},
                        Err(e) => return Err(e),
                    }
                    assert(out@ == old(out)@ + settings_bytes(id, settings@));
                    Ok(())
                },
                TypeSettings::Empty => {
                    write_num::<u16, LE>(out, 0);
                    write_num::<u8, LE>(out, 0);
                    write_num::<u8, LE>(out, 0);
                    proof {
                        let none = Seq::<u8>::empty();
                        assert(encode_utf8(Seq::<char>::empty()) =~= none);
                        assert(bytes16(none) =~= <u16 as NumericBytes<LE>>::to_bytes(0));
                        assert(bytes8(none) =~= <u8 as NumericBytes<LE>>::to_bytes(0));
                        assert(out@ == old(out)@ + settings_bytes(id, settings@));
                    }
                    Ok(())
                },
            }
        },
        None => {
            assert(out@ == old(out)@ + Seq::<u8>::empty());
            Ok(())
        },
    }
}

/// Reads the settings of a block of type `id`.
pub fn read_type_settings(data: &[u8], pos: usize, id: u8) -> (r: Result<
    (TypeSettings, usize),
    DecodeError,
>)
    ensures
        match r {
            Ok((settings, next)) => parse_settings(id, data@, pos as int) == Ok::<
                (TypeSettingsView, int),
                DecodeError,
            >((settings@, next as int)),
            Err(e) => parse_settings(id, data@, pos as int) == Err::<
                (TypeSettingsView, int),
                DecodeError,
            >(e),
        },
{
    proof {
        reveal(parse_settings);
    }
    match settings_layout(id) {
        Some(SettingsLayout::MathBlock) => {
            let (text, at1) = match read_vec::<u16, u8, LE>(data, pos) {
                Ok(x) => x,
                Err(e) => return Err(e),
            };
                let function = match string_from_utf8(text) {
                Some(function) => function,
                None => return Err(DecodeError { kind: CodecError::InvalidUtf8, offset: pos }),
            };
            proof {
                encode_utf8_valid_utf8(function@);
                encode_utf8_decode_utf8(function@);
            }
            let (incoming_connections_order, at2) = match read_vec::<u8, u8, LE>(data, at1) {
                Ok(x) => x,
                Err(e) => return Err(e),
            };
            let (slots, at3) = match read_vec::<u8, u8, LE>(data, at2) {
                Ok(x) => x,
                Err(e) => return Err(e),
            };
            Ok((TypeSettings::MathBlock { function, incoming_connections_order, slots }, at3))
        },
        None => {
            Ok((TypeSettings::Empty, pos))
        },
    }
}

/// Toggles as the bytes that hold them: one for set, zero for clear.
pub open spec fn toggle_bytes(toggles: Seq<bool>) -> Seq<u8> {
    toggles.map_values(
        |t: bool|
            if t {
                1u8
            } else {
                0u8
            },
    )
}

/// The toggles that bytes hold: set for any byte but zero.
pub open spec fn toggles_of(bytes: Seq<u8>) -> Seq<bool> {
    bytes.map_values(|b: u8| b != 0)
}

/// Dropdown selections as the signed 32-bit numbers that hold them.
pub open spec fn widen_u8(selections: Seq<u8>) -> Seq<i32> {
    selections.map_values(|d: u8| d as i32)
}

/// The rule that keeps a signed 32-bit number where it is a dropdown
/// selection.
pub open spec fn narrow_u8() -> spec_fn(i32) -> Option<u8> {
    |v: i32|
        if 0 <= v <= 0xff {
            Some(v as u8)
        } else {
            None
        }
}

/// Dropdown selections that were widened come back unchanged.
pub proof fn lemma_narrow_widen_u8(selections: Seq<u8>)
    ensures
        map_links(widen_u8(selections), narrow_u8()) == selections,
    decreases selections.len(),
{
    if selections.len() > 0 {
        lemma_narrow_widen_u8(selections.drop_last());
        assert(widen_u8(selections).drop_last() =~= widen_u8(selections.drop_last()));
        assert(selections.drop_last().push(selections.last()) =~= selections);
    } else {
        assert(selections =~= Seq::<u8>::empty());
    }
}

/// The executable form of `narrow_u8`.
pub struct NarrowU8;

impl LinkMap<i32, u8> for NarrowU8 {
    open spec fn valid(&self) -> bool {
        true
    }

    open spec fn rule(&self) -> spec_fn(i32) -> Option<u8> {
        narrow_u8()
    }

    fn apply(&self, link: i32) -> (r: Option<u8>) {
        if 0 <= link && link <= 0xff {
            Some(link as u8)
        } else {
            None
        }
    }
}

fn widen_selections(selections: &Vec<u8>) -> (wide: Vec<i32>)
    ensures
        wide@ == widen_u8(selections@),
{
    let mut wide: Vec<i32> = Vec::new();
    let mut i: usize = 0;
    while i < selections.len()
        invariant
            i <= selections.len(),
            wide@ == widen_u8(selections@.take(i as int)),
        decreases selections.len() - i,
    {
        wide.push(selections[i] as i32);
        proof {
            assert(widen_u8(selections@.take(i + 1)) =~= widen_u8(
                selections@.take(i as int),
            ).push(selections@[i as int] as i32));
        }
        i += 1;
    }
    assert(selections@.take(i as int) =~= selections@);
    wide
}

fn toggles_to_bytes(toggles: &Vec<bool>) -> (bytes: Vec<u8>)
    ensures
        bytes@ == toggle_bytes(toggles@),
{
    let mut bytes: Vec<u8> = Vec::new();
    let mut i: usize = 0;
    while i < toggles.len()
        invariant
            i <= toggles.len(),
            bytes@ == toggle_bytes(toggles@.take(i as int)),
        decreases toggles.len() - i,
    {
        let byte: u8 = if toggles[i] {
            1
        } else {
            0
        };
        bytes.push(byte);
        proof {
            assert(toggle_bytes(toggles@.take(i + 1)) =~= toggle_bytes(
                toggles@.take(i as int),
            ).push(byte));
        }
        i += 1;
    }
    assert(toggles@.take(i as int) =~= toggles@);
    bytes
}

fn bytes_to_toggles(bytes: &Vec<u8>) -> (toggles: Vec<bool>)
    ensures
        toggles@ == toggles_of(bytes@),
{
    let mut toggles: Vec<bool> = Vec::new();
    let mut i: usize = 0;
    while i < bytes.len()
        invariant
            i <= bytes.len(),
            toggles@ == toggles_of(bytes@.take(i as int)),
        decreases bytes.len() - i,
    {
        toggles.push(bytes[i] != 0);
        proof {
            assert(toggles_of(bytes@.take(i + 1)) =~= toggles_of(bytes@.take(i as int)).push(
                bytes@[i as int] != 0,
            ));
        }
        i += 1;
    }
    assert(bytes@.take(i as int) =~= bytes@);
    toggles
}

/// A list of signed 32-bit numbers with a 16-bit count in front.
pub open spec fn ints_bytes(ints: Seq<i32>) -> Seq<u8> {
    counted_bytes::<u16, LE, i32>(ints, num_enc::<i32, LE>())
}

/// Reads a list of signed 32-bit numbers with a 16-bit count in front.
pub open spec fn parse_ints(s: Seq<u8>, pos: int) -> Result<(Seq<i32>, int), DecodeError> {
    parse_counted::<u16, LE, i32>(s, pos, num_dec::<i32, LE>())
}

/// A list of at most 65535 signed numbers, once written, is read back.
pub proof fn lemma_ints_roundtrip(ints: Seq<i32>, s: Seq<u8>, pos: int)
    requires
        ints.len() <= 0xffff,
        has_at(s, pos, ints_bytes(ints)),
    ensures
        parse_ints(s, pos) == Ok::<(Seq<i32>, int), DecodeError>(
            (ints, pos + ints_bytes(ints).len()),
        ),
{
    lemma_num_inverse::<i32, LE>();
    lemma_counted_roundtrip::<u16, LE, i32>(
        ints,
        |x: i32| true,
        num_enc::<i32, LE>(),
        num_dec::<i32, LE>(),
        s,
        pos,
    );
}

/// The word that stands between the values and the fields of a metadata
/// record: the number of fields, or 0x7FFF where there are vectors.
pub open spec fn control_word(m: MetadataView<u16>) -> u16 {
    if m.vectors.len() > 0 {
        0x7FFF
    } else {
        m.fields.len() as u16
    }
}

/// The vectors of a metadata record on the wire: nothing where there are
/// none, else the list with a 16-bit count in front.
pub open spec fn vectors_bytes(vectors: Seq<[u32; 3]>) -> Seq<u8> {
    if vectors.len() > 0 {
        list_bytes::<[u32; 3]>(vectors)
    } else {
        Seq::empty()
    }
}

/// The bytes of the metadata of a block of type `id`: toggles, one byte
/// each, and values, both behind 16-bit counts; the control word; the
/// vectors if there are any; the fields; the dropdown selections as signed
/// 32-bit numbers, the colours and the gradients, each behind a 16-bit
/// count; and the settings of the block's type.
pub open spec fn metadata_bytes(id: u8, m: MetadataView<u16>) -> Seq<u8> {
    bytes16(toggle_bytes(m.toggles)) + words_bytes(m.values) + u16_bytes(control_word(m))
        + vectors_bytes(m.vectors) + items_bytes(m.fields, record_enc::<Vec<u16>>()) + ints_bytes(
        widen_u8(m.dropdowns),
    ) + list_bytes::<[u8; 4]>(m.colors) + list_bytes::<Gradient>(m.gradients) + settings_bytes(
        id,
        m.type_settings,
    )
}

/// Whether the layout can hold the metadata of a block of type `id`.
pub open spec fn metadata_fits(id: u8, m: MetadataView<u16>) -> bool {
    &&& m.toggles.len() <= 0xffff
    &&& m.values.len() <= 0xffff
    &&& m.exclusive()
    &&& m.fields.len() < 0x7FFF
    &&& m.vectors.len() <= 0xffff
    &&& all_good(m.fields, record_fits::<Vec<u16>>())
    &&& m.dropdowns.len() <= 0xffff
    &&& m.colors.len() <= 0xffff
    &&& list_fits::<Gradient>(m.gradients)
    &&& settings_fit(id, m.type_settings)
}

/// Reads the vectors that follow a control word.
pub open spec fn parse_vectors(control: u16, s: Seq<u8>, pos: int) -> Result<
    (Seq<[u32; 3]>, int),
    DecodeError,
> {
    if control >= 0x7FFF {
        parse_list::<[u32; 3]>(s, pos)
    } else {
        Ok((Seq::empty(), pos))
    }
}

/// What follows the fields of a metadata record, read and put together with
/// what came before. A record with both fields and vectors is refused.
#[verifier::opaque]
pub open spec fn parse_metadata_tail(
    id: u8,
    s: Seq<u8>,
    pos: int,
    toggles: Seq<bool>,
    values: Seq<u32>,
    vectors: Seq<[u32; 3]>,
    fields: Seq<Seq<u16>>,
) -> Result<(MetadataView<u16>, int), DecodeError> {
    match parse_ints(s, pos) {
        Err(e) => Err(e),
        Ok((selections, at1)) => match parse_list::<[u8; 4]>(s, at1) {
            Err(e) => Err(e),
            Ok((colors, at2)) => match parse_list::<Gradient>(s, at2) {
                Err(e) => Err(e),
                Ok((gradients, at3)) => match parse_settings(id, s, at3) {
                    Err(e) => Err(e),
                    Ok((type_settings, at4)) => if fields.len() > 0 && vectors.len() > 0 {
                        Err(at(CodecError::FormatViolation, pos))
                    } else {
                        Ok(
                            (
                                MetadataView {
                                    toggles,
                                    values,
                                    fields,
                                    dropdowns: map_links(selections, narrow_u8()),
                                    colors,
                                    gradients,
                                    vectors,
                                    type_settings,
                                },
                                at4,
                            ),
                        )
                    },
                },
            },
        }
    }
}

/// Reads the metadata of a block of type `id`. The control word gives the
/// number of fields as its remainder by 0x7FFF, and announces vectors where
/// it is 0x7FFF or more.
#[verifier::opaque]
pub open spec fn parse_metadata(id: u8, s: Seq<u8>, pos: int) -> Result<
    (MetadataView<u16>, int),
    DecodeError,
> {
    match parse_bytes16(s, pos) {
        Err(e) => Err(e),
        Ok((toggles, at1)) => match parse_words(s, at1) {
            Err(e) => Err(e),
            Ok((values, at2)) => match parse_num::<u16, LE>(s, at2) {
                Err(e) => Err(e),
                Ok((control, at3)) => match parse_vectors(control, s, at3) {
                    Err(e) => Err(e),
                    Ok((vectors, at4)) => match parse_items(
                        s,
                        at4,
                        (control % 0x7FFF) as nat,
                        record_dec::<Vec<u16>>(),
                    ) {
                        Err(e) => Err(e),
                        Ok((fields, at5)) => parse_metadata_tail(
                            id,
                            s,
                            at5,
                            toggles_of(toggles),
                            values,
                            vectors,
                            fields,
                        ),
                    },
                },
            },
        },
    }
}

/// The metadata of a block of type `id` as it comes back from the wire: its
/// settings are in their canonical form.
pub open spec fn canonical_metadata<R>(id: u8, m: MetadataView<R>) -> MetadataView<R> {
    MetadataView {
        toggles: m.toggles,
        values: m.values,
        fields: m.fields,
        dropdowns: m.dropdowns,
        colors: m.colors,
        gradients: m.gradients,
        vectors: m.vectors,
        type_settings: canonical_settings(id, m.type_settings),
    }
}

/// The bytes of a metadata record up to and with its fields.
pub open spec fn metadata_head_bytes(m: MetadataView<u16>) -> Seq<u8> {
    bytes16(toggle_bytes(m.toggles)) + words_bytes(m.values) + u16_bytes(control_word(m))
        + vectors_bytes(m.vectors) + items_bytes(m.fields, record_enc::<Vec<u16>>())
}

proof fn lemma_metadata_split(id: u8, m: MetadataView<u16>, s: Seq<u8>, pos: int)
    requires
        has_at(s, pos, metadata_bytes(id, m)),
    ensures
        ({
            let head = metadata_head_bytes(m);
            let f = ints_bytes(widen_u8(m.dropdowns));
            let g = list_bytes::<[u8; 4]>(m.colors);
            let h = list_bytes::<Gradient>(m.gradients);
            let i = settings_bytes(id, m.type_settings);
            &&& has_at(s, pos, head)
            &&& has_at(s, pos + head.len(), f)
            &&& has_at(s, pos + head.len() + f.len(), g)
            &&& has_at(s, pos + head.len() + f.len() + g.len(), h)
            &&& has_at(s, pos + head.len() + f.len() + g.len() + h.len(), i)
            &&& metadata_bytes(id, m).len() == head.len() + f.len() + g.len() + h.len() + i.len()
        }),
{
    let head = metadata_head_bytes(m);
    let f = ints_bytes(widen_u8(m.dropdowns));
    let g = list_bytes::<[u8; 4]>(m.colors);
    let h = list_bytes::<Gradient>(m.gradients);
    let i = settings_bytes(id, m.type_settings);
    assert(metadata_bytes(id, m) == head + f + g + h + i);
    lemma_has_at_concat(s, pos, head + f + g + h, i);
    lemma_has_at_concat(s, pos, head + f + g, h);
    lemma_has_at_concat(s, pos, head + f, g);
    lemma_has_at_concat(s, pos, head, f);
}

proof fn lemma_metadata_tail_roundtrip(
    id: u8,
    m: MetadataView<u16>,
    s: Seq<u8>,
    pos: int,
)
    requires
        metadata_fits(id, m),
        ({
            let f = ints_bytes(widen_u8(m.dropdowns));
            let g = list_bytes::<[u8; 4]>(m.colors);
            let h = list_bytes::<Gradient>(m.gradients);
            let i = settings_bytes(id, m.type_settings);
            &&& has_at(s, pos, f)
            &&& has_at(s, pos + f.len(), g)
            &&& has_at(s, pos + f.len() + g.len(), h)
            &&& has_at(s, pos + f.len() + g.len() + h.len(), i)
        }),
    ensures
        parse_metadata_tail(id, s, pos, m.toggles, m.values, m.vectors, m.fields) == Ok::<
            (MetadataView<u16>, int),
            DecodeError,
        >(
            (
                canonical_metadata(id, m),
                pos + ints_bytes(widen_u8(m.dropdowns)).len() + list_bytes::<[u8; 4]>(
                    m.colors,
                ).len() + list_bytes::<Gradient>(m.gradients).len() + settings_bytes(
                    id,
                    m.type_settings,
                ).len(),
            ),
        ),
{
    reveal(parse_metadata_tail);
    let f = ints_bytes(widen_u8(m.dropdowns));
    let g = list_bytes::<[u8; 4]>(m.colors);
    let h = list_bytes::<Gradient>(m.gradients);
    lemma_ints_roundtrip(widen_u8(m.dropdowns), s, pos);
    lemma_narrow_widen_u8(m.dropdowns);
    lemma_models_colors(m.colors);
    lemma_list_roundtrip::<[u8; 4]>(m.colors, s, pos + f.len());
    lemma_list_roundtrip::<Gradient>(m.gradients, s, pos + f.len() + g.len());
    lemma_settings_roundtrip(id, m.type_settings, s, pos + f.len() + g.len() + h.len());
}

proof fn lemma_metadata_head_split(m: MetadataView<u16>, s: Seq<u8>, pos: int)
    requires
        has_at(s, pos, metadata_head_bytes(m)),
    ensures
        ({
            let a = bytes16(toggle_bytes(m.toggles));
            let b = words_bytes(m.values);
            let c = u16_bytes(control_word(m));
            let d = vectors_bytes(m.vectors);
            let e = items_bytes(m.fields, record_enc::<Vec<u16>>());
            &&& has_at(s, pos, a)
            &&& has_at(s, pos + a.len(), b)
            &&& has_at(s, pos + a.len() + b.len(), c)
            &&& has_at(s, pos + a.len() + b.len() + c.len(), d)
            &&& has_at(s, pos + a.len() + b.len() + c.len() + d.len(), e)
            &&& metadata_head_bytes(m).len() == a.len() + b.len() + c.len() + d.len() + e.len()
        }),
{
    let a = bytes16(toggle_bytes(m.toggles));
    let b = words_bytes(m.values);
    let c = u16_bytes(control_word(m));
    let d = vectors_bytes(m.vectors);
    let e = items_bytes(m.fields, record_enc::<Vec<u16>>());
    lemma_has_at_concat(s, pos, a + b + c + d, e);
    lemma_has_at_concat(s, pos, a + b + c, d);
    lemma_has_at_concat(s, pos, a + b, c);
    lemma_has_at_concat(s, pos, a, b);
}

proof fn lemma_vectors_roundtrip(m: MetadataView<u16>, s: Seq<u8>, pos: int)
    requires
        m.vectors.len() <= 0xffff,
        m.fields.len() < 0x7FFF,
        has_at(s, pos, vectors_bytes(m.vectors)),
    ensures
        parse_vectors(control_word(m), s, pos) == Ok::<(Seq<[u32; 3]>, int), DecodeError>(
            (m.vectors, pos + vectors_bytes(m.vectors).len()),
        ),
{
    if m.vectors.len() > 0 {
        lemma_models_vectors(m.vectors);
        lemma_list_roundtrip::<[u32; 3]>(m.vectors, s, pos);
    } else {
        assert(m.vectors =~= Seq::<[u32; 3]>::empty());
    }
}

proof fn lemma_fields_roundtrip(m: MetadataView<u16>, s: Seq<u8>, pos: int)
    requires
        m.exclusive(),
        m.fields.len() < 0x7FFF,
        all_good(m.fields, record_fits::<Vec<u16>>()),
        has_at(s, pos, items_bytes(m.fields, record_enc::<Vec<u16>>())),
    ensures
        parse_items(s, pos, (control_word(m) % 0x7FFF) as nat, record_dec::<Vec<u16>>()) == Ok::<
            (Seq<Seq<u16>>, int),
            DecodeError,
        >((m.fields, pos + items_bytes(m.fields, record_enc::<Vec<u16>>()).len())),
{
    assert(control_word(m) % 0x7FFF == m.fields.len());
    lemma_record_inverse::<Vec<u16>>();
    lemma_items_roundtrip(
        m.fields,
        record_fits::<Vec<u16>>(),
        record_enc::<Vec<u16>>(),
        record_dec::<Vec<u16>>(),
        s,
        pos,
    );
}

/// Metadata that fits, once written, is read back with its settings in
/// their canonical form.
pub proof fn lemma_metadata_roundtrip(id: u8, m: MetadataView<u16>, s: Seq<u8>, pos: int)
    requires
        metadata_fits(id, m),
        has_at(s, pos, metadata_bytes(id, m)),
    ensures
        parse_metadata(id, s, pos) == Ok::<(MetadataView<u16>, int), DecodeError>(
            (canonical_metadata(id, m), pos + metadata_bytes(id, m).len()),
        ),
{
    reveal(parse_metadata);
    lemma_metadata_split(id, m, s, pos);
    lemma_metadata_head_split(m, s, pos);
    let a = bytes16(toggle_bytes(m.toggles));
    let b = words_bytes(m.values);
    let c = u16_bytes(control_word(m));
    let d = vectors_bytes(m.vectors);
    let e = items_bytes(m.fields, record_enc::<Vec<u16>>());
    let at1 = pos + a.len();
    let at2 = at1 + b.len();
    let at3 = at2 + c.len();
    let at4 = at3 + d.len();
    let at5 = at4 + e.len();
    lemma_bytes16_roundtrip(toggle_bytes(m.toggles), s, pos);
    assert(toggles_of(toggle_bytes(m.toggles)) =~= m.toggles);
    lemma_words_roundtrip(m.values, s, at1);
    lemma_num_roundtrip::<u16, LE>(control_word(m), s, at2);
    lemma_vectors_roundtrip(m, s, at3);
    lemma_fields_roundtrip(m, s, at4);
    lemma_metadata_tail_roundtrip(id, m, s, at5);
}

/// The lists of links of fields are the models of the fields.
pub proof fn lemma_models_fields(fields: Seq<Vec<u16>>)
    ensures
        models::<Vec<u16>>(fields) == link_lists(fields),
{
    assert(models::<Vec<u16>>(fields) =~= link_lists(fields));
}

/// The views of gradients are their models.
pub proof fn lemma_models_gradients(gradients: Seq<Gradient>)
    ensures
        models::<Gradient>(gradients) == gradient_views(gradients),
{
    assert(models::<Gradient>(gradients) =~= gradient_views(gradients));
}

/// Whether the layout can hold a metadata record up to and with its fields.
pub open spec fn metadata_head_fits(m: MetadataView<u16>) -> bool {
    &&& m.toggles.len() <= 0xffff
    &&& m.values.len() <= 0xffff
    &&& m.exclusive()
    &&& m.fields.len() < 0x7FFF
    &&& m.vectors.len() <= 0xffff
    &&& all_good(m.fields, record_fits::<Vec<u16>>())
}

/// The bytes of a metadata record behind its fields.
pub open spec fn metadata_tail_bytes(id: u8, m: MetadataView<u16>) -> Seq<u8> {
    ints_bytes(widen_u8(m.dropdowns)) + list_bytes::<[u8; 4]>(m.colors) + list_bytes::<Gradient>(
        m.gradients,
    ) + settings_bytes(id, m.type_settings)
}

/// Whether the layout can hold what stands behind the fields.
pub open spec fn metadata_tail_fits(id: u8, m: MetadataView<u16>) -> bool {
    &&& m.dropdowns.len() <= 0xffff
    &&& m.colors.len() <= 0xffff
    &&& list_fits::<Gradient>(m.gradients)
    &&& settings_fit(id, m.type_settings)
}

fn write_metadata_head(out: &mut Vec<u8>, metadata: &BlockMetadata<u16>) -> (r: Result<
    (),
    CodecError,
>)
    ensures
        match r {
            Ok(()) => metadata_head_fits(metadata@) && final(out)@ == old(out)@
                + metadata_head_bytes(metadata@),
            Err(e) => e == CodecError::FormatViolation && !metadata_head_fits(metadata@),
        },
{
    let ghost m = metadata@;
    let toggles = toggles_to_bytes(metadata.toggles());
    match write_vec::<u16, u8, LE>(out, toggles.as_slice()) {
        Ok(()) => {},
        Err(e) => return Err(e),
    }
    match write_vec::<u16, u32, LE>(out, metadata.values().as_slice()) {
        Ok(()) => {},
        Err(e) => return Err(e),
    }
    let fields = metadata.fields();
    let vectors = metadata.vectors();
    proof {
        lemma_models_fields(fields@);
        lemma_models_vectors(vectors@);
    }
    if fields.len() >= 0x7FFF {
        return Err(CodecError::FormatViolation);
    }
    let control: u16 = if vectors.len() > 0 {
        0x7FFF
    } else {
        fields.len() as u16
    };
    write_num::<u16, LE>(out, control);
    let ghost before = out@;
    if vectors.len() > 0 {
        match write_counted::<u16, LE, [u32; 3]>(out, vectors) {
            Ok(()) => {},
            Err(e) => return Err(e),
        }
    }
    assert(out@ == before + vectors_bytes(m.vectors));
    assert(before == old(out)@ + (bytes16(toggle_bytes(m.toggles)) + words_bytes(m.values)
        + u16_bytes(control_word(m))));
    match write_records::<Vec<u16>>(out, fields) {
        Ok(()) => {},
        Err(e) => return Err(e),
    }
    assert(out@ == old(out)@ + metadata_head_bytes(m));
    Ok(())
}

fn write_metadata_tail(out: &mut Vec<u8>, id: u8, metadata: &BlockMetadata<u16>) -> (r: Result<
    (),
    CodecError,
>)
    ensures
        match r {
            Ok(()) => metadata_tail_fits(id, metadata@) && final(out)@ == old(out)@
                + metadata_tail_bytes(id, metadata@),
            Err(e) => e == CodecError::FormatViolation && !metadata_tail_fits(id, metadata@),
        },
{
    let ghost m = metadata@;
    let selections = widen_selections(metadata.dropdowns());
    match write_vec::<u16, i32, LE>(out, selections.as_slice()) {
        Ok(()) => {},
        Err(e) => return Err(e),
    }
    let colors = metadata.colors();
    let gradients = metadata.gradients();
    proof {
        lemma_models_colors(colors@);
        lemma_models_gradients(gradients@);
    }
    match write_counted::<u16, LE, [u8; 4]>(out, colors) {
        Ok(()) => {},
        Err(e) => return Err(e),
    }
    match write_counted::<u16, LE, Gradient>(out, gradients) {
        Ok(()) => {},
        Err(e) => return Err(e),
    }
    assert(out@ == old(out)@ + (ints_bytes(widen_u8(m.dropdowns)) + list_bytes::<[u8; 4]>(
        m.colors,
    ) + list_bytes::<Gradient>(m.gradients)));
    match write_type_settings(out, id, metadata.type_settings()) {
        Ok(()) => {},
        Err(e) => return Err(e),
    }
    assert(out@ == old(out)@ + metadata_tail_bytes(id, m));
    Ok(())
}

/// Writes the metadata of a block of type `id`.
pub fn write_metadata(out: &mut Vec<u8>, id: u8, metadata: &BlockMetadata<u16>) -> (r: Result<
    (),
    CodecError,
>)
    ensures
        match r {
            Ok(()) => metadata_fits(id, metadata@) && final(out)@ == old(out)@ + metadata_bytes(
                id,
                metadata@,
            ),
            Err(e) => e == CodecError::FormatViolation && !metadata_fits(id, metadata@),
        },
{
    match write_metadata_head(out, metadata) {
        Ok(()) => {},
        Err(e) => return Err(e),
    }
    match write_metadata_tail(out, id, metadata) {
        Ok(()) => {},
        Err(e) => return Err(e),
    }
    assert(out@ == old(out)@ + (metadata_head_bytes(metadata@) + metadata_tail_bytes(
        id,
        metadata@,
    )));
    assert(metadata_head_bytes(metadata@) + metadata_tail_bytes(id, metadata@) == metadata_bytes(
        id,
        metadata@,
    ));
    Ok(())
}

/// Reads the metadata of a block of type `id`.
pub fn read_metadata(data: &[u8], pos: usize, id: u8) -> (r: Result<
    (BlockMetadata<u16>, usize),
    DecodeError,
>)
    ensures
        match r {
            Ok((m, next)) => parse_metadata(id, data@, pos as int) == Ok::<
                (MetadataView<u16>, int),
                DecodeError,
            >((m@, next as int)),
            Err(e) => parse_metadata(id, data@, pos as int) == Err::<
                (MetadataView<u16>, int),
                DecodeError,
            >(e),
        },
{
    proof {
        reveal(parse_metadata);
        reveal(parse_metadata_tail);
    }
    let (toggle_bytes, at1) = match read_vec::<u16, u8, LE>(data, pos) {
        Ok(x) => x,
        Err(e) => return Err(e),
    };
    let toggles = bytes_to_toggles(&toggle_bytes);
    let (values, at2) = match read_vec::<u16, u32, LE>(data, at1) {
        Ok(x) => x,
        Err(e) => return Err(e),
    };
    let (control, at3) = match read_num::<u16, LE>(data, at2) {
        Ok(x) => x,
        Err(e) => return Err(e),
    };
    let (vectors, at4) = if control >= 0x7FFF {
        match read_counted::<u16, LE, [u32; 3]>(data, at3) {
            Ok(x) => x,
            Err(e) => return Err(e),
        }
    } else {
        (Vec::new(), at3)
    };
    proof {
        lemma_models_vectors(vectors@);
    }
    let (fields, at5) = match read_records::<Vec<u16>>(data, at4, (control % 0x7FFF) as usize) {
        Ok(x) => x,
        Err(e) => return Err(e),
    };
    proof {
        lemma_models_fields(fields@);
    }
    let (selections, at6) = match read_vec::<u16, i32, LE>(data, at5) {
        Ok(x) => x,
        Err(e) => return Err(e),
    };
    let dropdowns = map_link_list(&selections, &NarrowU8);
    let (colors, at7) = match read_counted::<u16, LE, [u8; 4]>(data, at6) {
        Ok(x) => x,
        Err(e) => return Err(e),
    };
    let (gradients, at8) = match read_counted::<u16, LE, Gradient>(data, at7) {
        Ok(x) => x,
        Err(e) => return Err(e),
    };
    proof {
        lemma_models_colors(colors@);
        lemma_models_gradients(gradients@);
    }
    let (type_settings, at9) = match read_type_settings(data, at8, id) {
        Ok(x) => x,
        Err(e) => return Err(e),
    };
    match BlockMetadata::new(
        toggles,
        values,
        fields,
        dropdowns,
        colors,
        gradients,
        vectors,
        type_settings,
    ) {
        Ok(m) => Ok((m, at9)),
        Err(_) => Err(DecodeError { kind: CodecError::FormatViolation, offset: at5 }),
    }
}

} // verus!
