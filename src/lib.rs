//! An intercepting RTMP proxy engine: chunk header codec, message reassembly
//! and re-chunking, and the rewriting of the AMF0 commands that name the
//! application and the stream.

pub mod binorder;
pub mod header;
pub mod command;
pub mod config;
pub mod chunk;
pub mod reassembly;
pub mod session;
