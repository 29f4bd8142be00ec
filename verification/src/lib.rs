//! Embedded parity: parity bits computed from groups of bits of a fixed-width
//! word and stored in bit positions of that same word.

pub mod bits;
pub mod catalog;
pub mod driver;
pub mod parity;
pub mod scheme;
