//! A verified implementation of the LZ4 frame and block codec.
//!
//! The crate compresses byte buffers into LZ4 frames (magic 0x184D2204,
//! independent blocks of at most 4 MiB) at nine levels, decompresses such
//! frames, and provides the XXHash32 checksum used for the frame header.
//! Every compressor is proved to produce a payload that the block decoder
//! maps back to the exact input.

pub mod bytes;
pub mod compress;
pub mod decompress;
pub mod errors;
pub mod frame;
pub mod xxhash32;
