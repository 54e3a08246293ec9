//! A sparse matrix container with two representations: an authoritative
//! store of `(row, col, word)` cells for mutation, and a lazily rebuilt
//! compressed-row view for ordered traversal.
//!
//! Cell values are opaque 64-bit words: the container never interprets
//! them, so callers may store any payload — typically the IEEE-754 bit
//! pattern of a double-precision number.

mod laws;
mod model;
mod matrix;
mod text;

pub use laws::lemma_clear_at_absent;
pub use laws::lemma_identity_entries;
pub use laws::lemma_insert_then_clear_at;
pub use laws::lemma_insert_then_peek;
pub use laws::lemma_transpose_round_trip;
pub use matrix::MatrixError;
pub use matrix::RowIterator;
pub use matrix::SparseMatrix;
pub use model::ONE_WORD;
