//! A deniable, keyword-addressed block storage engine.
//!
//! One physical extent (a fixed array of equally sized sectors) hosts any
//! number of independent logical volumes called aspects.  An aspect is a chain
//! of encrypted blocks; its first block is found by a position derived from a
//! secret keyword, every block is encrypted with a key derived from the
//! keyword and the block's position in the chain, and a checksum decides
//! whether a decrypted block is genuine content.  Free space and foreign
//! aspects are indistinguishable from random noise to anyone without the
//! keyword.

pub mod address;
pub mod aspect;
pub mod block;
pub mod bytes;
pub mod cmap;
pub mod config;
pub mod crc;
pub mod device;
pub mod extent;
pub mod keyword;
pub mod mem;
pub mod random;
pub mod sanity;
pub mod sector;
