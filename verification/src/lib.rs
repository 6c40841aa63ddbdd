//! Byte-oriented run-length coding.
//!
//! A byte that stands alone is written as itself. A run of `n` equal bytes
//! (`2 <= n <= 257`) is written as three bytes: the byte, the byte again,
//! and `n - 2`. Longer runs are written as several such records in a row.
//!
//! [`encode`] and [`decode`] are the two executable entry points. Their
//! contracts are stated over the mathematical model in [`format`]; what holds
//! of the two is proved in [`laws`].
//!
//! The decoder keeps no count of records. It takes a byte for a repetition
//! marker whenever it equals the input byte directly before it, and that byte
//! may be a length byte. So `decode` gives back what `encode` was given
//! exactly where no run that was written with a length byte is followed by a
//! byte of that very value ([`format::is_unambiguous`]): `[5, 5, 0]` is
//! encoded as `[5, 5, 0, 0]`, whose last byte the decoder takes for a marker
//! that lacks its length byte. [`ambiguity`] holds the proof that decoding
//! goes wrong on every such input.

pub mod ambiguity;
pub mod decoder;
pub mod encoder;
pub mod format;
pub mod laws;

pub use crate::decoder::{decode, DecodeError};
pub use crate::encoder::encode;
pub use crate::format::MAX_RUN_LENGTH;
