//! A codec for a tag-length-value wire format: a tree of tagged nodes is
//! written to and read from big-endian byte buffers in which each payload is
//! padded to a multiple of eight bytes.
//!
//! `ttlv` holds the nodes and the encoder and decoder, `wire` the byte-level
//! model they are proved against, `util` the padding and big-endian helpers,
//! and `laws` properties that hold across calls.
pub mod laws;
pub mod ttlv;
pub mod util;
pub mod wire;

pub use crate::ttlv::{Error, Tag, TryFromValue, Ttlv, Value};
pub use crate::util::{padded_len, parse_ttlv_len, WriteVar};
pub use crate::wire::{TtlvModel, ValueModel};
