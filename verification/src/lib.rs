//! PurgePack: container framing and the delta, run-length and canonical
//! Huffman codecs, together with the decision logic of the module host.
//!
//! Every executable function carries a contract over a mathematical model of
//! its data (`Seq<u8>` for byte streams, `Seq<bool>` for bit streams), and the
//! round-trip laws of the codecs are stated as proof functions.

pub mod bits;
pub mod container;
pub mod delta;
pub mod file_facts;
pub mod host;
pub mod huffman;
pub mod rle;
pub mod stats;
