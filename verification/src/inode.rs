//! Inodes.
//!
//! Every inode starts with 16 bytes common to all: type, permissions, uid and
//! gid index, mtime and inode number. What follows depends on the type. There
//! is a basic and an extended form of each; the extended ones add an xattr
//! index, and 64-bit sizes for files. Both are read into one [`Inode`].

use vstd::prelude::*;

use crate::bytes::{get_le16, get_le32, get_le64};
use crate::cache::CacheState;
use crate::device::BlockRead;
use crate::error::{Error, Result};
use crate::metablock::{MetaCache, MetaCursor, MetadataRef, Stream};
use crate::superblock::{Superblock, SQUASHFS_INVALID_FRAG};
use crate::xattr::SQUASHFS_INVALID_XATTR;

verus! {

pub const TYPE_BASIC_DIR: u16 = 1;

pub const TYPE_BASIC_FILE: u16 = 2;

pub const TYPE_BASIC_SYMLINK: u16 = 3;

pub const TYPE_BASIC_BLKDEV: u16 = 4;

pub const TYPE_BASIC_CHRDEV: u16 = 5;

pub const TYPE_BASIC_FIFO: u16 = 6;

pub const TYPE_BASIC_SOCKET: u16 = 7;

pub const TYPE_EXT_DIR: u16 = 8;

pub const TYPE_EXT_FILE: u16 = 9;

pub const TYPE_EXT_SYMLINK: u16 = 10;

pub const TYPE_EXT_BLKDEV: u16 = 11;

pub const TYPE_EXT_CHRDEV: u16 = 12;

pub const TYPE_EXT_FIFO: u16 = 13;

pub const TYPE_EXT_SOCKET: u16 = 14;

/// No file has more data blocks than this: 2 TiB in blocks of 128 KiB.
pub const MAX_BLOCKS: u64 = 0x100_0000;

/// No symlink target is longer than this.
pub const MAX_SYMLINK: u32 = 0x1_0000;

/// The kinds of files.
#[derive(Debug, Clone, Copy, PartialEq, Eq, Structural)]
pub enum FileType {
    Dir,
    RegFile,
    Symlink,
    CharDev,
    BlockDev,
    Fifo,
    Socket,
    Unknown,
}

/// The kind of file that an inode type stands for.
pub open spec fn type_of(t: u16) -> FileType {
    if t == TYPE_BASIC_DIR || t == TYPE_EXT_DIR {
        FileType::Dir
    } else if t == TYPE_BASIC_FILE || t == TYPE_EXT_FILE {
        FileType::RegFile
    } else if t == TYPE_BASIC_SYMLINK || t == TYPE_EXT_SYMLINK {
        FileType::Symlink
    } else if t == TYPE_BASIC_CHRDEV || t == TYPE_EXT_CHRDEV {
        FileType::CharDev
    } else if t == TYPE_BASIC_BLKDEV || t == TYPE_EXT_BLKDEV {
        FileType::BlockDev
    } else if t == TYPE_BASIC_FIFO || t == TYPE_EXT_FIFO {
        FileType::Fifo
    } else if t == TYPE_BASIC_SOCKET || t == TYPE_EXT_SOCKET {
        FileType::Socket
    } else {
        FileType::Unknown
    }
}

impl FileType {
    /// The kind of file for an inode type, basic or extended. Directory
    /// entries hold the basic type.
    pub fn from_type_id(t: u16) -> (r: FileType)
        ensures
            r == type_of(t),
    {
        match t {
            TYPE_BASIC_DIR | TYPE_EXT_DIR => FileType::Dir,
            TYPE_BASIC_FILE | TYPE_EXT_FILE => FileType::RegFile,
            TYPE_BASIC_SYMLINK | TYPE_EXT_SYMLINK => FileType::Symlink,
            TYPE_BASIC_CHRDEV | TYPE_EXT_CHRDEV => FileType::CharDev,
            TYPE_BASIC_BLKDEV | TYPE_EXT_BLKDEV => FileType::BlockDev,
            TYPE_BASIC_FIFO | TYPE_EXT_FIFO => FileType::Fifo,
            TYPE_BASIC_SOCKET | TYPE_EXT_SOCKET => FileType::Socket,
            _ => FileType::Unknown,
        }
    }

    /// The code of this kind in the C interface.
    pub open spec fn abi_code(self) -> u8 {
        match self {
            FileType::Unknown => 0,
            FileType::RegFile => 1,
            FileType::Dir => 2,
            FileType::CharDev => 3,
            FileType::BlockDev => 4,
            FileType::Fifo => 5,
            FileType::Socket => 6,
            FileType::Symlink => 7,
        }
    }

    /// The code of this kind in the C interface.
    pub fn to_abi(self) -> (r: u8)
        ensures
            r == self.abi_code(),
    {
        match self {
            FileType::Unknown => 0,
            FileType::RegFile => 1,
            FileType::Dir => 2,
            FileType::CharDev => 3,
            FileType::BlockDev => 4,
            FileType::Fifo => 5,
            FileType::Socket => 6,
            FileType::Symlink => 7,
        }
    }

    /// The type bits of this kind in a POSIX `st_mode`.
    pub open spec fn type_bits(self) -> u16 {
        match self {
            FileType::Dir => 0o040000,
            FileType::RegFile => 0o100000,
            FileType::Symlink => 0o120000,
            FileType::CharDev => 0o020000,
            FileType::BlockDev => 0o060000,
            FileType::Fifo => 0o010000,
            FileType::Socket => 0o140000,
            FileType::Unknown => 0,
        }
    }

    /// The type bits of this kind in a POSIX `st_mode`.
    pub fn mode_bits(self) -> (r: u16)
        ensures
            r == self.type_bits(),
    {
        match self {
            FileType::Dir => 0o040000,
            FileType::RegFile => 0o100000,
            FileType::Symlink => 0o120000,
            FileType::CharDev => 0o020000,
            FileType::BlockDev => 0o060000,
            FileType::Fifo => 0o010000,
            FileType::Socket => 0o140000,
            FileType::Unknown => 0,
        }
    }
}

/// An inode.
#[derive(Debug, Clone)]
pub struct Inode {
    pub inode_type: u16,
    /// Permission bits only, without the type bits.
    pub permissions: u16,
    pub uid_idx: u16,
    pub gid_idx: u16,
    pub mtime: u32,
    pub inode_number: u32,
    pub nlink: u32,
    /// For files the length in bytes; for symlinks the length of the target;
    /// for directories the size of the listing and three more.
    pub file_size: u64,
    /// The device number of a block or character device, else 0.
    pub rdev: u32,
    /// The index of the inode's set of extended attributes, or
    /// [`SQUASHFS_INVALID_XATTR`] if it has none.
    pub xattr_index: u32,
    /// Directories: the offset of the listing's first metadata block from
    /// `directory_table_start`.
    pub dir_start_block: u32,
    /// Directories: the offset of the listing within that block.
    pub dir_block_offset: u16,
    /// Files: the absolute offset of the first data block.
    pub blocks_start: u64,
    /// Files: an index into the fragment table, or
    /// [`SQUASHFS_INVALID_FRAG`] if there is no tail fragment.
    pub fragment_index: u32,
    /// Files: the offset of the tail within the decompressed fragment.
    pub fragment_offset: u32,
    /// Files: the size word of each data block.
    pub block_sizes: Vec<u32>,
    /// Symlinks: the target.
    pub symlink_target: Vec<u8>,
}

/// What an [`Inode`] holds.
#[verifier::ext_equal]
pub struct InodeData {
    pub inode_type: u16,
    pub permissions: u16,
    pub uid_idx: u16,
    pub gid_idx: u16,
    pub mtime: u32,
    pub inode_number: u32,
    pub nlink: u32,
    pub file_size: u64,
    pub rdev: u32,
    pub xattr_index: u32,
    pub dir_start_block: u32,
    pub dir_block_offset: u16,
    pub blocks_start: u64,
    pub fragment_index: u32,
    pub fragment_offset: u32,
    pub block_sizes: Seq<u32>,
    pub symlink_target: Seq<u8>,
}

impl View for Inode {
    type V = InodeData;

    open spec fn view(&self) -> InodeData {
        InodeData {
            inode_type: self.inode_type,
            permissions: self.permissions,
            uid_idx: self.uid_idx,
            gid_idx: self.gid_idx,
            mtime: self.mtime,
            inode_number: self.inode_number,
            nlink: self.nlink,
            file_size: self.file_size,
            rdev: self.rdev,
            xattr_index: self.xattr_index,
            dir_start_block: self.dir_start_block,
            dir_block_offset: self.dir_block_offset,
            blocks_start: self.blocks_start,
            fragment_index: self.fragment_index,
            fragment_offset: self.fragment_offset,
            block_sizes: self.block_sizes@,
            symlink_target: self.symlink_target@,
        }
    }
}

impl InodeData {
    /// The kind of file.
    pub open spec fn kind(self) -> FileType {
        type_of(self.inode_type)
    }

    /// Whether the file has a tail in a fragment block.
    pub open spec fn has_tail(self) -> bool {
        self.kind() == FileType::RegFile && self.fragment_index != SQUASHFS_INVALID_FRAG
    }

    /// The length of a directory's listing: `file_size` counts three more.
    pub open spec fn listing_len(self) -> nat {
        let size = self.file_size as usize;
        if size < 3 {
            0
        } else {
            (size - 3) as nat
        }
    }
}

// ---- the layout on disk ----

/// The fields common to all inodes, from their 16 bytes; the others as they
/// are until the type says more.
pub open spec fn common_fields(h: Seq<u8>) -> InodeData {
    InodeData {
        inode_type: crate::bytes::le16(h, 0),
        permissions: crate::bytes::le16(h, 2),
        uid_idx: crate::bytes::le16(h, 4),
        gid_idx: crate::bytes::le16(h, 6),
        mtime: crate::bytes::le32(h, 8),
        inode_number: crate::bytes::le32(h, 12),
        nlink: 1,
        file_size: 0,
        rdev: 0,
        xattr_index: SQUASHFS_INVALID_XATTR,
        dir_start_block: 0,
        dir_block_offset: 0,
        blocks_start: 0,
        fragment_index: SQUASHFS_INVALID_FRAG,
        fragment_offset: 0,
        block_sizes: Seq::empty(),
        symlink_target: Seq::empty(),
    }
}

/// How many bytes of fixed fields follow the common ones, for the types that
/// exist.
pub open spec fn body_len(t: u16) -> Result<nat> {
    if t == TYPE_BASIC_DIR || t == TYPE_BASIC_FILE {
        Ok(16)
    } else if t == TYPE_EXT_DIR {
        Ok(24)
    } else if t == TYPE_EXT_FILE {
        Ok(40)
    } else if t == TYPE_BASIC_SYMLINK || t == TYPE_EXT_SYMLINK || t == TYPE_BASIC_BLKDEV || t
        == TYPE_BASIC_CHRDEV || t == TYPE_EXT_FIFO || t == TYPE_EXT_SOCKET {
        Ok(8)
    } else if t == TYPE_EXT_BLKDEV || t == TYPE_EXT_CHRDEV {
        Ok(12)
    } else if t == TYPE_BASIC_FIFO || t == TYPE_BASIC_SOCKET {
        Ok(4)
    } else if t == 0 {
        Err(Error::BadInode("inode type 0"))
    } else {
        Err(Error::BadInode("unknown inode type"))
    }
}

/// `d` with the fixed fields `b` of its type.
pub open spec fn with_body(d: InodeData, b: Seq<u8>) -> InodeData {
    let t = d.inode_type;
    if t == TYPE_BASIC_DIR {
        InodeData {
            dir_start_block: crate::bytes::le32(b, 0),
            nlink: crate::bytes::le32(b, 4),
            file_size: crate::bytes::le16(b, 8) as u64,
            dir_block_offset: crate::bytes::le16(b, 10),
            ..d
        }
    } else if t == TYPE_EXT_DIR {
        InodeData {
            nlink: crate::bytes::le32(b, 0),
            file_size: crate::bytes::le32(b, 4) as u64,
            dir_start_block: crate::bytes::le32(b, 8),
            dir_block_offset: crate::bytes::le16(b, 18),
            xattr_index: crate::bytes::le32(b, 20),
            ..d
        }
    } else if t == TYPE_BASIC_FILE {
        InodeData {
            blocks_start: crate::bytes::le32(b, 0) as u64,
            fragment_index: crate::bytes::le32(b, 4),
            fragment_offset: crate::bytes::le32(b, 8),
            file_size: crate::bytes::le32(b, 12) as u64,
            ..d
        }
    } else if t == TYPE_EXT_FILE {
        InodeData {
            blocks_start: crate::bytes::le64(b, 0),
            file_size: crate::bytes::le64(b, 8),
            nlink: crate::bytes::le32(b, 24),
            fragment_index: crate::bytes::le32(b, 28),
            fragment_offset: crate::bytes::le32(b, 32),
            xattr_index: crate::bytes::le32(b, 36),
            ..d
        }
    } else if t == TYPE_BASIC_SYMLINK || t == TYPE_EXT_SYMLINK {
        InodeData {
            nlink: crate::bytes::le32(b, 0),
            file_size: crate::bytes::le32(b, 4) as u64,
            ..d
        }
    } else if t == TYPE_BASIC_BLKDEV || t == TYPE_BASIC_CHRDEV {
        InodeData { nlink: crate::bytes::le32(b, 0), rdev: crate::bytes::le32(b, 4), ..d }
    } else if t == TYPE_EXT_BLKDEV || t == TYPE_EXT_CHRDEV {
        InodeData {
            nlink: crate::bytes::le32(b, 0),
            rdev: crate::bytes::le32(b, 4),
            xattr_index: crate::bytes::le32(b, 8),
            ..d
        }
    } else if t == TYPE_BASIC_FIFO || t == TYPE_BASIC_SOCKET {
        InodeData { nlink: crate::bytes::le32(b, 0), ..d }
    } else {
        InodeData { nlink: crate::bytes::le32(b, 0), xattr_index: crate::bytes::le32(b, 4), ..d }
    }
}

/// How many data blocks a file has: its length in whole blocks, rounded down
/// where the rest is in a fragment and up where it is not.
pub open spec fn data_blocks(file_size: u64, block_size: u64, fragment_index: u32) -> Result<nat> {
    let whole = (file_size / block_size) as nat;
    let n = if fragment_index == SQUASHFS_INVALID_FRAG && file_size % block_size != 0 {
        whole + 1
    } else {
        whole
    };
    if n > MAX_BLOCKS {
        Err(Error::BadInode("file block count exceeds sanity bound"))
    } else {
        Ok(n)
    }
}

/// Number of data blocks of a file.
pub fn block_count(file_size: u64, block_size: u64, fragment_index: u32) -> (r: Result<u64>)
    requires
        block_size > 0,
    ensures
        match r {
            Ok(n) => data_blocks(file_size, block_size, fragment_index) == Ok::<nat, Error>(
                n as nat,
            ),
            Err(e) => data_blocks(file_size, block_size, fragment_index) == Err::<nat, Error>(e),
        },
{
    let whole: u64 = file_size / block_size;
    if whole > MAX_BLOCKS {
        return Err(Error::BadInode("file block count exceeds sanity bound"));
    }
    let n: u64 = if fragment_index == SQUASHFS_INVALID_FRAG && file_size % block_size != 0 {
        whole + 1
    } else {
        whole
    };
    if n > MAX_BLOCKS {
        return Err(Error::BadInode("file block count exceeds sanity bound"));
    }
    Ok(n)
}

/// The inode `d` with what follows its fixed fields in the stream `s`: the
/// size words of a file, the target of a symlink and, in the extended form,
/// the xattr index behind it.
pub open spec fn with_tail(
    image: Seq<u8>,
    compression_id: u16,
    block_size: u64,
    s: Stream,
    d: InodeData,
) -> Result<InodeData> {
    if d.kind() == FileType::RegFile {
        match data_blocks(d.file_size, block_size, d.fragment_index) {
            Err(e) => Err(e),
            Ok(n) => match crate::metablock::stream_read(image, compression_id, s, 4 * n) {
                Err(e) => Err(e),
                Ok((words, _)) => Ok(
                    InodeData {
                        block_sizes: Seq::new(n, |i: int| crate::bytes::le32(words, 4 * i)),
                        ..d
                    },
                ),
            },
        }
    } else if d.kind() == FileType::Symlink {
        if d.file_size > MAX_SYMLINK {
            Err(Error::BadInode("symlink target exceeds sanity bound"))
        } else {
            match crate::metablock::stream_read(image, compression_id, s, d.file_size as nat) {
                Err(e) => Err(e),
                Ok((target, s2)) => if d.inode_type == TYPE_BASIC_SYMLINK {
                    Ok(InodeData { symlink_target: target, ..d })
                } else {
                    match crate::metablock::stream_read(image, compression_id, s2, 4) {
                        Err(e) => Err(e),
                        Ok((x, _)) => Ok(
                            InodeData {
                                symlink_target: target,
                                xattr_index: crate::bytes::le32(x, 0),
                                ..d
                            },
                        ),
                    }
                },
            }
        }
    } else {
        Ok(d)
    }
}

/// The inode that stands at the start of the stream `s`.
pub open spec fn inode_in(
    image: Seq<u8>,
    compression_id: u16,
    block_size: u64,
    s: Stream,
) -> Result<InodeData> {
    match crate::metablock::stream_read(image, compression_id, s, 16) {
        Err(e) => Err(e),
        Ok((h, s1)) => {
            let d = common_fields(h);
            match body_len(d.inode_type) {
                Err(e) => Err(e),
                Ok(n) => match crate::metablock::stream_read(image, compression_id, s1, n) {
                    Err(e) => Err(e),
                    Ok((b, s2)) => with_tail(
                        image,
                        compression_id,
                        block_size,
                        s2,
                        with_body(d, b),
                    ),
                },
            }
        },
    }
}

/// The inode that a reference names.
pub open spec fn inode_at(image: Seq<u8>, sb: Superblock, inode_ref: u64) -> Result<InodeData> {
    let r = MetadataRef::unpacked(inode_ref);
    match crate::metablock::stream_at(
        image,
        sb.compression_id,
        r.absolute(sb.inode_table_start) as nat,
        r.in_block as nat,
    ) {
        Err(e) => Err(e),
        Ok(s) => inode_in(image, sb.compression_id, sb.block_size as u64, s),
    }
}

/// What reading an inode returned, against what the image calls for.
pub open spec fn inode_outcome(
    dependable: bool,
    got: Result<Inode>,
    want: Result<InodeData>,
) -> bool {
    match got {
        Ok(inode) => want == Ok::<InodeData, Error>(inode@),
        Err(e) => want == Err::<InodeData, Error>(e) || (!dependable && e is Block),
    }
}

// ---- what reading does to a cache ----

/// The cache after what follows an inode's fixed fields was read through it.
pub open spec fn tail_cache(
    image: Seq<u8>,
    compression_id: u16,
    block_size: u64,
    s: Stream,
    d: InodeData,
    cache: CacheState,
) -> CacheState {
    if d.kind() == FileType::RegFile {
        match data_blocks(d.file_size, block_size, d.fragment_index) {
            Err(_) => cache,
            Ok(n) => crate::metablock::stream_cache(image, compression_id, s, 4 * n, cache),
        }
    } else if d.kind() == FileType::Symlink && d.file_size <= MAX_SYMLINK {
        let after = crate::metablock::stream_cache(
            image,
            compression_id,
            s,
            d.file_size as nat,
            cache,
        );
        match crate::metablock::stream_read(image, compression_id, s, d.file_size as nat) {
            Err(_) => after,
            Ok((_, s2)) => if d.inode_type == TYPE_BASIC_SYMLINK {
                after
            } else {
                crate::metablock::stream_cache(image, compression_id, s2, 4, after)
            },
        }
    } else {
        cache
    }
}

/// The cache after the inode at the start of the stream `s` was read through
/// it.
pub open spec fn inode_in_cache(
    image: Seq<u8>,
    compression_id: u16,
    block_size: u64,
    s: Stream,
    cache: CacheState,
) -> CacheState {
    let c1 = crate::metablock::stream_cache(image, compression_id, s, 16, cache);
    match crate::metablock::stream_read(image, compression_id, s, 16) {
        Err(_) => c1,
        Ok((h, s1)) => {
            let d = common_fields(h);
            match body_len(d.inode_type) {
                Err(_) => c1,
                Ok(n) => {
                    let c2 = crate::metablock::stream_cache(image, compression_id, s1, n, c1);
                    match crate::metablock::stream_read(image, compression_id, s1, n) {
                        Err(_) => c2,
                        Ok((b, s2)) => tail_cache(
                            image,
                            compression_id,
                            block_size,
                            s2,
                            with_body(d, b),
                            c2,
                        ),
                    }
                },
            }
        },
    }
}

/// The cache after the inode that a reference names was read through it.
pub open spec fn inode_cache(
    image: Seq<u8>,
    sb: Superblock,
    inode_ref: u64,
    cache: CacheState,
) -> CacheState {
    let r = MetadataRef::unpacked(inode_ref);
    let abs = r.absolute(sb.inode_table_start) as nat;
    let first = crate::metablock::cache_after_block(image, sb.compression_id, abs, cache);
    match crate::metablock::stream_at(image, sb.compression_id, abs, r.in_block as nat) {
        Err(_) => first,
        Ok(s) => inode_in_cache(image, sb.compression_id, sb.block_size as u64, s, first),
    }
}

// ---- reading ----

#[verifier::rlimit(40)]
fn read_block_sizes<R: BlockRead>(cur: &mut MetaCursor<R>, n: u64) -> (r: Result<Vec<u32>>)
    requires
        old(cur).wf(),
        n <= MAX_BLOCKS,
    ensures
        final(cur).follows(&*old(cur)),
        *final(final(cur).cache) == *final(old(cur).cache),
        crate::error::settled(old(cur).dependable(), r) ==> final(cur).cache@
            == crate::metablock::stream_cache(
            old(cur).image(),
            old(cur).compression_id(),
            old(cur).stream(),
            4 * n as nat,
            old(cur).cache@,
        ),
        ({
            let want = crate::metablock::stream_read(
                old(cur).image(),
                old(cur).compression_id(),
                old(cur).stream(),
                4 * n as nat,
            );
            match r {
                Ok(v) => {
                    &&& want is Ok
                    &&& v@ == Seq::new(
                        n as nat,
                        |i: int| crate::bytes::le32((want->Ok_0).0, 4 * i),
                    )
                },
                Err(e) => want == Err::<(Seq<u8>, Stream), Error>(e) || (!old(cur).dependable()
                    && e is Block),
            }
        }),
{
    let ghost image = cur.image();
    let ghost id = cur.compression_id();
    let ghost s0 = cur.stream();
    let ghost mut words = Seq::<u8>::empty();
    let mut v: Vec<u32> = Vec::new();
    let mut i: u64 = 0;
    assert(s0.rest.take(0) =~= words);
    assert(s0.rest.skip(0) =~= s0.rest);
    while i < n
        invariant
            i <= n <= MAX_BLOCKS,
            image == old(cur).image(),
            id == old(cur).compression_id(),
            s0 == old(cur).stream(),
            cur.follows(&*old(cur)),
            *final(cur.cache) == *final(old(cur).cache),
            words.len() == 4 * i,
            crate::metablock::stream_read(image, id, s0, 4 * i as nat) == Ok::<
                (Seq<u8>, Stream),
                Error,
            >((words, cur.stream())),
            v@ == Seq::new(i as nat, |k: int| crate::bytes::le32(words, 4 * k)),
            cur.cache@ == crate::metablock::stream_cache(
                image,
                id,
                s0,
                4 * i as nat,
                old(cur).cache@,
            ),
        decreases n - i,
    {
        let ghost s = cur.stream();
        proof {
            crate::metablock::stream_read_in_pieces(image, id, s0, 4 * i as nat, 4);
            crate::metablock::stream_read_in_pieces(
                image,
                id,
                s0,
                (4 * i + 4) as nat,
                (4 * n - 4 * i - 4) as nat,
            );
            crate::metablock::stream_read_gives_all(image, id, s, 4);
            crate::metablock::stream_cache_in_pieces(
                image,
                id,
                s0,
                4 * i as nat,
                4,
                old(cur).cache@,
            );
            crate::metablock::stream_cache_in_pieces(
                image,
                id,
                s0,
                (4 * i + 4) as nat,
                (4 * n - 4 * i - 4) as nat,
                old(cur).cache@,
            );
        }
        let word: u32 = cur.read_u32()?;
        proof {
            let piece = (crate::metablock::stream_read(image, id, s, 4)->Ok_0).0;
            let grown = words + piece;
            assert(crate::bytes::le32(grown, 4 * i as int) == word);
            words = grown;
        }
        v.push(word);
        i = i + 1;
        assert(v@ =~= Seq::new(i as nat, |k: int| crate::bytes::le32(words, 4 * k)));
    }
    Ok(v)
}

fn read_symlink<R: BlockRead>(cur: &mut MetaCursor<R>, size: u32) -> (r: Result<Vec<u8>>)
    requires
        old(cur).wf(),
    ensures
        final(cur).follows(&*old(cur)),
        *final(final(cur).cache) == *final(old(cur).cache),
        crate::error::settled(old(cur).dependable(), r) ==> final(cur).cache@ == (if size
            > MAX_SYMLINK {
            old(cur).cache@
        } else {
            crate::metablock::stream_cache(
                old(cur).image(),
                old(cur).compression_id(),
                old(cur).stream(),
                size as nat,
                old(cur).cache@,
            )
        }),
        if size > MAX_SYMLINK {
            r == Err::<Vec<u8>, Error>(Error::BadInode("symlink target exceeds sanity bound"))
        } else {
            let want = crate::metablock::stream_read(
                old(cur).image(),
                old(cur).compression_id(),
                old(cur).stream(),
                size as nat,
            );
            match r {
                Ok(v) => want == Ok::<(Seq<u8>, Stream), Error>((v@, final(cur).stream())),
                Err(e) => want == Err::<(Seq<u8>, Stream), Error>(e) || (!old(cur).dependable()
                    && e is Block),
            }
        },
{
    if size > MAX_SYMLINK {
        return Err(Error::BadInode("symlink target exceeds sanity bound"));
    }
    cur.read_exact(size as usize)
}

impl Inode {
    /// The kind of file.
    pub fn file_type(&self) -> (r: FileType)
        ensures
            r == self@.kind(),
    {
        FileType::from_type_id(self.inode_type)
    }

    /// Whether this is a directory.
    pub fn is_dir(&self) -> (r: bool)
        ensures
            r == (self@.kind() == FileType::Dir),
    {
        self.file_type() == FileType::Dir
    }

    /// Whether this is a regular file.
    pub fn is_regular_file(&self) -> (r: bool)
        ensures
            r == (self@.kind() == FileType::RegFile),
    {
        self.file_type() == FileType::RegFile
    }

    /// Whether this is a symlink.
    pub fn is_symlink(&self) -> (r: bool)
        ensures
            r == (self@.kind() == FileType::Symlink),
    {
        self.file_type() == FileType::Symlink
    }

    /// Whether a file has a tail in a fragment block.
    pub fn has_fragment(&self) -> (r: bool)
        ensures
            r == self@.has_tail(),
    {
        self.is_regular_file() && self.fragment_index != SQUASHFS_INVALID_FRAG
    }

    /// Whether the inode has extended attributes.
    pub fn has_xattrs(&self) -> (r: bool)
        ensures
            r == (self.xattr_index != SQUASHFS_INVALID_XATTR),
    {
        self.xattr_index != SQUASHFS_INVALID_XATTR
    }

    /// The major number of a device, in the Linux encoding: 12 bits, from
    /// bit 8 on.
    pub fn rdev_major(&self) -> (r: u32)
        ensures
            r == (self.rdev >> 8) & 0xFFF,
    {
        (self.rdev >> 8) & 0xFFF
    }

    /// The minor number of a device, in the Linux encoding: 20 bits, the low
    /// eight from bit 0 on and the others from bit 20 on.
    pub fn rdev_minor(&self) -> (r: u32)
        ensures
            r == (self.rdev & 0xFF) | ((self.rdev >> 12) & 0xF_FF00),
    {
        (self.rdev & 0xFF) | ((self.rdev >> 12) & 0xF_FF00)
    }

    /// The length of a directory's listing on disk. `file_size` counts three
    /// more; a value of three or less means that there are no entries.
    pub fn dir_listing_len(&self) -> (r: usize)
        ensures
            r == self@.listing_len(),
    {
        (self.file_size as usize).saturating_sub(3)
    }

    /// Reads the inode that `inode_ref` names.
    pub fn read<R: BlockRead>(
        dev: &R,
        sb: &Superblock,
        inode_ref: u64,
        cache: &mut MetaCache,
    ) -> (r: Result<Inode>)
        requires
            sb.block_size > 0,
            old(cache).fits(dev.image(), sb.compression_id),
        ensures
            inode_outcome(dev.dependable(), r, inode_at(dev.image(), *sb, inode_ref)),
            crate::error::settled(dev.dependable(), r) ==> final(cache)@ == inode_cache(
                dev.image(),
                *sb,
                inode_ref,
                old(cache)@,
            ),
            final(cache).fits(dev.image(), sb.compression_id),
            final(cache)@.capacity == old(cache)@.capacity,
    {
        let at: MetadataRef = MetadataRef::from_packed(inode_ref);
        let mut cur = MetaCursor::new(
            dev,
            sb,
            at.start_abs(sb.inode_table_start),
            at.in_block,
            cache,
        )?;
        Inode::read_from(&mut cur, sb.block_size as u64)
    }

    /// Reads the inode at which the cursor stands.
    #[verifier::rlimit(40)]
    pub fn read_from<R: BlockRead>(cur: &mut MetaCursor<R>, block_size: u64) -> (r: Result<Inode>)
        requires
            old(cur).wf(),
            block_size > 0,
        ensures
            final(cur).follows(&*old(cur)),
            *final(final(cur).cache) == *final(old(cur).cache),
            crate::error::settled(old(cur).dependable(), r) ==> final(cur).cache@
                == inode_in_cache(
                old(cur).image(),
                old(cur).compression_id(),
                block_size,
                old(cur).stream(),
                old(cur).cache@,
            ),
            inode_outcome(
                old(cur).dependable(),
                r,
                inode_in(
                    old(cur).image(),
                    old(cur).compression_id(),
                    block_size,
                    old(cur).stream(),
                ),
            ),
    {
        let header: Vec<u8> = cur.read_exact(16)?;
        let h: &[u8] = header.as_slice();
        let inode_type: u16 = get_le16(h, 0);
        let mut inode = Inode {
            inode_type,
            permissions: get_le16(h, 2),
            uid_idx: get_le16(h, 4),
            gid_idx: get_le16(h, 6),
            mtime: get_le32(h, 8),
            inode_number: get_le32(h, 12),
            nlink: 1,
            file_size: 0,
            rdev: 0,
            xattr_index: SQUASHFS_INVALID_XATTR,
            dir_start_block: 0,
            dir_block_offset: 0,
            blocks_start: 0,
            fragment_index: SQUASHFS_INVALID_FRAG,
            fragment_offset: 0,
            block_sizes: Vec::new(),
            symlink_target: Vec::new(),
        };
        assert(inode@ =~= common_fields(header@));
        match inode_type {
            TYPE_BASIC_DIR => {
                let b: Vec<u8> = cur.read_exact(16)?;
                inode.dir_start_block = get_le32(b.as_slice(), 0);
                inode.nlink = get_le32(b.as_slice(), 4);
                inode.file_size = get_le16(b.as_slice(), 8) as u64;
                inode.dir_block_offset = get_le16(b.as_slice(), 10);
            },
            TYPE_EXT_DIR => {
                // An index for faster lookups may follow; listings are
                // scanned from the start, so it is not read.
                let b: Vec<u8> = cur.read_exact(24)?;
                inode.nlink = get_le32(b.as_slice(), 0);
                inode.file_size = get_le32(b.as_slice(), 4) as u64;
                inode.dir_start_block = get_le32(b.as_slice(), 8);
                inode.dir_block_offset = get_le16(b.as_slice(), 18);
                inode.xattr_index = get_le32(b.as_slice(), 20);
            },
            TYPE_BASIC_FILE => {
                let b: Vec<u8> = cur.read_exact(16)?;
                inode.blocks_start = get_le32(b.as_slice(), 0) as u64;
                inode.fragment_index = get_le32(b.as_slice(), 4);
                inode.fragment_offset = get_le32(b.as_slice(), 8);
                inode.file_size = get_le32(b.as_slice(), 12) as u64;
                let n: u64 = block_count(inode.file_size, block_size, inode.fragment_index)?;
                inode.block_sizes = read_block_sizes(cur, n)?;
            },
            TYPE_EXT_FILE => {
                let b: Vec<u8> = cur.read_exact(40)?;
                inode.blocks_start = get_le64(b.as_slice(), 0);
                inode.file_size = get_le64(b.as_slice(), 8);
                inode.nlink = get_le32(b.as_slice(), 24);
                inode.fragment_index = get_le32(b.as_slice(), 28);
                inode.fragment_offset = get_le32(b.as_slice(), 32);
                inode.xattr_index = get_le32(b.as_slice(), 36);
                let n: u64 = block_count(inode.file_size, block_size, inode.fragment_index)?;
                inode.block_sizes = read_block_sizes(cur, n)?;
            },
            TYPE_BASIC_SYMLINK => {
                let b: Vec<u8> = cur.read_exact(8)?;
                inode.nlink = get_le32(b.as_slice(), 0);
                let target_size: u32 = get_le32(b.as_slice(), 4);
                inode.symlink_target = read_symlink(cur, target_size)?;
                inode.file_size = target_size as u64;
            },
            TYPE_EXT_SYMLINK => {
                let b: Vec<u8> = cur.read_exact(8)?;
                inode.nlink = get_le32(b.as_slice(), 0);
                let target_size: u32 = get_le32(b.as_slice(), 4);
                inode.symlink_target = read_symlink(cur, target_size)?;
                inode.file_size = target_size as u64;
                inode.xattr_index = cur.read_u32()?;
            },
            TYPE_BASIC_BLKDEV | TYPE_BASIC_CHRDEV => {
                let b: Vec<u8> = cur.read_exact(8)?;
                inode.nlink = get_le32(b.as_slice(), 0);
                inode.rdev = get_le32(b.as_slice(), 4);
            },
            TYPE_EXT_BLKDEV | TYPE_EXT_CHRDEV => {
                let b: Vec<u8> = cur.read_exact(12)?;
                inode.nlink = get_le32(b.as_slice(), 0);
                inode.rdev = get_le32(b.as_slice(), 4);
                inode.xattr_index = get_le32(b.as_slice(), 8);
            },
            TYPE_BASIC_FIFO | TYPE_BASIC_SOCKET => {
                let b: Vec<u8> = cur.read_exact(4)?;
                inode.nlink = get_le32(b.as_slice(), 0);
            },
            TYPE_EXT_FIFO | TYPE_EXT_SOCKET => {
                let b: Vec<u8> = cur.read_exact(8)?;
                inode.nlink = get_le32(b.as_slice(), 0);
                inode.xattr_index = get_le32(b.as_slice(), 4);
            },
            0 => return Err(Error::BadInode("inode type 0")),
            _ => return Err(Error::BadInode("unknown inode type")),
        }
        Ok(inode)
    }
}

/// A regular file that is read has as many size words as its length and its
/// fragment call for.
pub proof fn file_has_its_size_words(image: Seq<u8>, sb: Superblock, inode_ref: u64)
    requires
        inode_at(image, sb, inode_ref) matches Ok(d) && d.kind() == FileType::RegFile,
    ensures
        inode_at(image, sb, inode_ref) matches Ok(d) && data_blocks(
            d.file_size,
            sb.block_size as u64,
            d.fragment_index,
        ) == Ok::<nat, Error>(d.block_sizes.len()),
{
}

/// A symlink that is read has a target as long as its size says, of at most
/// 65536 bytes.
pub proof fn symlink_has_its_target(image: Seq<u8>, sb: Superblock, inode_ref: u64)
    requires
        inode_at(image, sb, inode_ref) matches Ok(d) && d.kind() == FileType::Symlink,
    ensures
        inode_at(image, sb, inode_ref) matches Ok(d) && d.symlink_target.len() == d.file_size
            && d.file_size <= MAX_SYMLINK,
{
    let r = MetadataRef::unpacked(inode_ref);
    let id = sb.compression_id;
    let s = crate::metablock::stream_at(
        image,
        id,
        r.absolute(sb.inode_table_start) as nat,
        r.in_block as nat,
    )->Ok_0;
    let (h, s1) = crate::metablock::stream_read(image, id, s, 16)->Ok_0;
    let (b, s2) = crate::metablock::stream_read(image, id, s1, 8)->Ok_0;
    let d = with_body(common_fields(h), b);
    crate::metablock::stream_read_gives_all(image, id, s2, d.file_size as nat);
}

/// Only devices have a device number, and only extended inodes an xattr
/// index.
pub proof fn basic_inodes_have_no_xattrs(image: Seq<u8>, sb: Superblock, inode_ref: u64)
    requires
        inode_at(image, sb, inode_ref) is Ok,
    ensures
        inode_at(image, sb, inode_ref) matches Ok(d) && (d.inode_type < TYPE_EXT_DIR
            ==> d.xattr_index == SQUASHFS_INVALID_XATTR) && (d.kind() != FileType::CharDev
            && d.kind() != FileType::BlockDev ==> d.rdev == 0),
{
}

/// No inode of an unknown type is ever read.
pub proof fn inode_has_a_known_type(image: Seq<u8>, sb: Superblock, inode_ref: u64)
    requires
        inode_at(image, sb, inode_ref) is Ok,
    ensures
        inode_at(image, sb, inode_ref) matches Ok(d) && d.kind() != FileType::Unknown && 1
            <= d.inode_type <= 14,
{
}

/// On a dependable device the image alone decides which inode is read: two
/// reads agree, whatever the caches held before each.
pub proof fn dependable_inode_reads_agree(
    a: Result<Inode>,
    b: Result<Inode>,
    want: Result<InodeData>,
)
    requires
        inode_outcome(true, a, want),
        inode_outcome(true, b, want),
    ensures
        match (a, b) {
            (Ok(x), Ok(y)) => x@ == y@,
            (Err(x), Err(y)) => x == y,
            _ => false,
        },
{
}

} // verus!
