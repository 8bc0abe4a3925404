//! An LZMA codec: range coder, probability models, packet codec, HC4 match
//! finder and instruction pickers, with contracts checked by Verus.
//!
//! - `range_codec`: adaptive probabilities, bit prices, range encoder and decoder.
//! - `length_codec`: bit-tree codecs and the three-tier match-length codec.
//! - `literals_codec`: literal coding in normal and matched mode.
//! - `state`: the packet state machine and the four rep distances.
//! - `cyclic_buffer`, `data_buffers`: the encoder window and decoder dictionary.
//! - `match_finder`: HC4 and a brute-force reference finder.
//! - `stream_codec`: the packet codec, distance slots and packet prices.
//! - `encoders`, `optimal`: the encoder front end and the fast and optimal pickers.
//! - `header`, `lzma`: the 13-byte header and whole-stream compress/decompress.

pub mod error;
pub mod range_codec;
pub mod length_codec;
pub mod state;
pub mod literals_codec;
pub mod cyclic_buffer;
pub mod data_buffers;
pub mod match_finder;
pub mod header;
pub mod stream_codec;
pub mod encoders;
pub mod lzma;
pub mod optimal;
