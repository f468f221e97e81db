//! A bijective codec that packs a sequence of bytes into signed 32-bit
//! integers and unpacks them again, for channels that only carry `i32`
//! values.
//!
//! Each packed value is read as a base-10 digit string: the leading digit
//! (position 10) is a mode tag saying how many bytes the value carries,
//! and digit positions 9..1 hold up to three bytes as three-digit groups.
//!
//! * `digit_fields` holds the decimal digit-field primitives and their laws.
//! * `packing` holds the mathematical model of the codec and its laws.
//! * `s_d_u8_i32` holds the executable encoder, decoder and utilities.

pub mod digit_fields;
pub mod packing;
pub mod s_d_u8_i32;
