//! A read-only reader for SquashFS 4.0 images, with its behaviour proved.
//!
//! SquashFS is a compressed, read-only filesystem: an image is written once
//! and never modified in place, so there is no write path here. The reader
//! works over any [`device::BlockRead`], and every contract is stated over
//! the bytes of the image that such a device serves.
//!
//! - [`superblock`]: the 96-byte superblock, parsed and checked
//! - [`decompress`]: which codec decodes a block; [`xz`], [`bcj`] and
//!   [`lzo1x`] are the parts of it that are decoded here, and [`bcj_encode`]
//!   says what [`bcj`] undoes
//! - [`metablock`]: metadata blocks, and a cursor over a run of them
//! - [`table`]: the id, fragment and export tables
//! - [`xattr`]: extended attributes
//! - [`inode`]: inodes of every shape
//! - [`dir`]: directory listings
//! - [`data`]: the blocks and the bytes of files
//! - [`path`]: paths, cut into names
//! - [`fs`]: the mounted image
//! - [`cache`]: decompressed blocks, kept
//! - [`written`]: how an image is written, and that it is read back so
//! - [`capi`] and [`ls`]: what the C interface and the lister hand out
//! - [`device`], [`error`], [`bytes`]: what all of them rest on

pub mod bcj;
pub mod bcj_encode;
pub mod bytes;
pub mod cache;
pub mod capi;
pub mod data;
pub mod decompress;
pub mod device;
pub mod dir;
pub mod error;
pub mod fs;
pub mod inode;
pub mod ls;
pub mod lzo1x;
pub mod metablock;
pub mod path;
pub mod superblock;
pub mod table;
pub mod written;
pub mod xattr;
pub mod xz;

pub use decompress::Compressor;
pub use device::{BlockRead, MemDevice};
pub use dir::DirEntry;
pub use error::{BlockError, Error, Result};
pub use fs::Filesystem;
pub use inode::{FileType, Inode};
pub use superblock::Superblock;
pub use xattr::XattrEntry;
