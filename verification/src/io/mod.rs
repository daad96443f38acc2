//! Readers and writers over in-memory PSD bytes.

pub mod reader;
pub mod writer;
pub mod roundtrip;
pub mod color_mode;
pub mod hierarchy;
pub mod header;
