//! Lossless LZSS-style byte-stream compression.
//!
//! `compress` interleaves literal bytes and (length, distance)
//! back-references, tagged by per-8-token flag bytes; `expand` rebuilds
//! the original bytes and reports truncated or out-of-range streams.

pub mod token;
pub mod wire;
pub mod index;
pub mod codec;

pub use codec::compress;
pub use codec::expand;
pub use index::link_matches;
pub use index::match_length;
pub use index::best_match;
pub use wire::ExpandError;
