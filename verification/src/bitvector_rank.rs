//! Rank indexes over a fixed sequence of bits: how many bits are set before a position.

pub mod bits;
pub mod rank_1;
pub mod rank_256_64;
pub mod rank_256_64_interlaced;
pub mod rank_512_64_interlaced;
pub mod rank_64_interlaced;
pub mod test_utils;
