//! Bit-exact rewriting of AAC `global_gain` fields.
//!
//! The [`bits`] module holds the two primitives that patch a gain value in
//! place: a saturating step adjustment on the 8-bit gain, and a write of an
//! 8-bit value at an arbitrary bit position of a byte buffer.
pub mod bits;
