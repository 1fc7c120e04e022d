//! Converts far-render terrain sections into chunks of the Anvil world format.
//!
//! The library holds the verified logic: decoding of section blobs, the
//! palette-compressed chunk model and its bit packing, and the decisions of
//! the region pipeline. Database access, file output and the progress display
//! live in the application around it.
pub mod chunk;
pub mod cli;
pub mod data;
pub mod decompress;
pub mod error;
pub mod palette;
pub mod worldgen;
