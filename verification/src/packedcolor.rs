//! A colour packed into sixteen bits.

use vstd::prelude::*;
use crate::io::utils::{pack_color, unpack_color, spec_pack_color, spec_unpack_color};

verus! {

/// A RGB565 colour word.
#[derive(Debug, Clone, Copy, PartialEq, Eq, Hash)]
pub struct PackedColor(pub u16);

impl PackedColor {
    /// Packs three channel bytes.
    pub fn pack_from_u8rgb(r: u8, g: u8, b: u8) -> (packed: Self)
        ensures
            packed.0 == spec_pack_color([r, g, b]),
    {
        PackedColor(pack_color([r, g, b]))
    }

    /// Packs a triple of channel bytes.
    pub fn pack_from_u8x3(data: [u8; 3]) -> (packed: Self)
        ensures
            packed.0 == spec_pack_color(data),
    {
        PackedColor(pack_color(data))
    }

    /// The channel bytes that the word stands for.
    pub fn unpack_to_u8x3(&self) -> (rgb: [u8; 3])
        ensures
            rgb == spec_unpack_color(self.0),
    {
        unpack_color(self.0)
    }
}

} // verus!
