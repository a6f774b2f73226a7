//! How the structures of an image are written, and that reading one gives back
//! what was written.
//!
//! Each structure is described here from the writer's side, by the bytes that
//! stand for it. The laws hold the reader to these descriptions: what is
//! written is accepted, and read back as it was.

pub mod caches;
pub mod codec;
pub mod data;
pub mod dir;
pub mod inode;
pub mod lzo1x;
pub mod metablock;
pub mod numbers;
pub mod refused;
pub mod reports;
pub mod superblock;
pub mod table;
pub mod xattr;
pub mod xz;
