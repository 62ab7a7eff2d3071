//! A versioned binary codec for buildings: roots of blocks that are wired to
//! each other, written as a compact byte stream and read back.
//!
//! Floating-point quantities are held as the values that go on the wire: an
//! IEEE-754 single as its 32 bits, a rotation as three 16-bit fixed-point
//! angles, an enable state as its byte.

pub mod block;
pub mod building;
pub mod definitions;
pub mod error;
pub mod io;
pub mod links;
pub mod packedcolor;
pub mod root;
