//! A Quarto engine library: bitboard representation of positions, symmetry
//! canonicalization, negamax evaluation, position validation, text formats
//! and the minimal-perfect-hash tablebase format.

pub mod bits;
pub mod board;
pub mod node;
pub mod record;
pub mod line_masks;
pub mod place;
pub mod transform;
pub mod canonicalization;
pub mod hashing;
pub mod tablebase;
pub mod evaluate;
pub mod validation;
pub mod parsing;
pub mod index;
pub mod analyze;
pub mod commands;
pub mod solve;
pub mod shard_buffer;
pub mod progress;
pub mod budget;
