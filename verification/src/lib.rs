//! Block framing logic of a streaming ZPAQ compressor.
//!
//! The compression engine itself is a C++ library reached through a C
//! interface; what stands here is the logic that surrounds it: locating
//! block headers in a compressed stream, cutting input into blocks,
//! putting blocks that come back from worker threads into order again,
//! and reading the command line's block-size and path arguments.

pub mod locator;
pub mod pipeline;
pub mod framing;
pub mod reorder;
pub mod cli;
pub mod codec_io;
