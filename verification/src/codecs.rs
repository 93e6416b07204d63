//! Encodings of posting lists: LEB128 varints, the interleaved all-varint
//! stream, and the block format that bit-packs runs of 128 values.
pub mod bitpack;
pub mod interleaved;
pub mod sorting;
pub mod varint;

pub use bitpack::BLOCK_LEN;
pub use interleaved::{
    decode_postings, decode_postings_internal, encode_postings, encode_postings_internal,
    merge_postings,
};
pub use varint::{decode_varint, encode_varint};
pub mod separated;
