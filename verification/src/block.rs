//! LZ4 block format: token-stream codec and decode instrumentation.

pub mod decode;
pub mod encode;
pub mod format;
pub mod laws;

pub use decode::{
    decode_mix_for_block, decompress, decompress_into, decompress_into_with_profile,
    decompress_size_prepended, profile_counter_value, read_varint_len, DecodeMix, DecodeProfile,
};
pub use encode::{compress, compress_prepend_size};
pub use format::DecompressError;
