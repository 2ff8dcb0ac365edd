//! LZ4 block, high-compression and frame codecs with xxHash checksums.
#![allow(non_camel_case_types)]
pub mod block;
pub mod bytes;
pub mod file;
pub mod format;
pub mod frame;
pub mod hc;
pub mod types;
pub mod xxh;
