//! LZ4 block compression and decompression with a verified token-stream
//! codec, a streaming 32-bit hash whose digest is independent of how the
//! input is chunked across calls, and instrumentation that classifies every
//! decoded byte by the copy strategy that served it.

pub mod block;
pub mod hash;
pub mod simd;
