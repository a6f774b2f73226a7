//! Inodes, as they are written.

use vstd::prelude::*;

use crate::error::Error;
use crate::inode::{FileType, InodeData};
use crate::metablock::Stream;
use crate::superblock::Superblock;
use super::metablock::lemma_comes_apart;
use super::numbers::{number32_is_read_back, numbers32_are_read_back};

verus! {

broadcast use {
    super::numbers::lemma_len16,
    super::numbers::lemma_len32,
    super::numbers::lemma_len64,
};

/// What a writer puts into an inode and a reader passes over.
pub struct Unread {
    pub parent: u32,
    pub index_count: u16,
    pub sparse: u64,
}

/// The fields that every inode starts with.
pub open spec fn header_bytes(d: InodeData) -> Seq<u8> {
    super::numbers::bytes16(d.inode_type) + (
        super::numbers::bytes16(d.permissions) + (
        super::numbers::bytes16(d.uid_idx) + (
        super::numbers::bytes16(d.gid_idx) + (
        super::numbers::bytes32(d.mtime) + (
        super::numbers::bytes32(d.inode_number))))))
}

proof fn lemma_header(b: Seq<u8>, d: InodeData)
    requires
        b == header_bytes(d),
    ensures
        b.len() == 16,
        crate::bytes::le16(b, 0) == d.inode_type,
        crate::bytes::le16(b, 2) == d.permissions,
        crate::bytes::le16(b, 4) == d.uid_idx,
        crate::bytes::le16(b, 6) == d.gid_idx,
        crate::bytes::le32(b, 8) == d.mtime,
        crate::bytes::le32(b, 12) == d.inode_number,
{
    assert(b.subrange(0, b.len() as int) =~= b);
    super::numbers::lemma_field16(b, 0, d.inode_type, super::numbers::bytes16(d.permissions) + (
        super::numbers::bytes16(d.uid_idx) + (
        super::numbers::bytes16(d.gid_idx) + (
        super::numbers::bytes32(d.mtime) + (
        super::numbers::bytes32(d.inode_number))))));
    super::numbers::lemma_field16(b, 2, d.permissions, super::numbers::bytes16(d.uid_idx) + (
        super::numbers::bytes16(d.gid_idx) + (
        super::numbers::bytes32(d.mtime) + (
        super::numbers::bytes32(d.inode_number)))));
    super::numbers::lemma_field16(b, 4, d.uid_idx, super::numbers::bytes16(d.gid_idx) + (
        super::numbers::bytes32(d.mtime) + (
        super::numbers::bytes32(d.inode_number))));
    super::numbers::lemma_field16(b, 6, d.gid_idx, super::numbers::bytes32(d.mtime) + (
        super::numbers::bytes32(d.inode_number)));
    super::numbers::lemma_field32(b, 8, d.mtime, super::numbers::bytes32(d.inode_number));
    super::numbers::lemma_last32(b, 12, d.inode_number);
}

/// The fields of a basic directory.
pub open spec fn basic_dir_bytes(d: InodeData, u: Unread) -> Seq<u8> {
    super::numbers::bytes32(d.dir_start_block) + (
        super::numbers::bytes32(d.nlink) + (
        super::numbers::bytes16(d.file_size as u16) + (
        super::numbers::bytes16(d.dir_block_offset) + (
        super::numbers::bytes32(u.parent)))))
}

proof fn lemma_basic_dir(b: Seq<u8>, d: InodeData, u: Unread)
    requires
        b == basic_dir_bytes(d, u),
    ensures
        b.len() == 16,
        crate::bytes::le32(b, 0) == d.dir_start_block,
        crate::bytes::le32(b, 4) == d.nlink,
        crate::bytes::le16(b, 8) == d.file_size as u16,
        crate::bytes::le16(b, 10) == d.dir_block_offset,
        crate::bytes::le32(b, 12) == u.parent,
{
    assert(b.subrange(0, b.len() as int) =~= b);
    super::numbers::lemma_field32(b, 0, d.dir_start_block, super::numbers::bytes32(d.nlink) + (
        super::numbers::bytes16(d.file_size as u16) + (
        super::numbers::bytes16(d.dir_block_offset) + (
        super::numbers::bytes32(u.parent)))));
    super::numbers::lemma_field32(b, 4, d.nlink, super::numbers::bytes16(d.file_size as u16) + (
        super::numbers::bytes16(d.dir_block_offset) + (
        super::numbers::bytes32(u.parent))));
    super::numbers::lemma_field16(b, 8, d.file_size as u16, super::numbers::bytes16(d.dir_block_offset) + (
        super::numbers::bytes32(u.parent)));
    super::numbers::lemma_field16(b, 10, d.dir_block_offset, super::numbers::bytes32(u.parent));
    super::numbers::lemma_last32(b, 12, u.parent);
}

/// The fields of an extended directory.
pub open spec fn extended_dir_bytes(d: InodeData, u: Unread) -> Seq<u8> {
    super::numbers::bytes32(d.nlink) + (
        super::numbers::bytes32(d.file_size as u32) + (
        super::numbers::bytes32(d.dir_start_block) + (
        super::numbers::bytes32(u.parent) + (
        super::numbers::bytes16(u.index_count) + (
        super::numbers::bytes16(d.dir_block_offset) + (
        super::numbers::bytes32(d.xattr_index)))))))
}

proof fn lemma_extended_dir(b: Seq<u8>, d: InodeData, u: Unread)
    requires
        b == extended_dir_bytes(d, u),
    ensures
        b.len() == 24,
        crate::bytes::le32(b, 0) == d.nlink,
        crate::bytes::le32(b, 4) == d.file_size as u32,
        crate::bytes::le32(b, 8) == d.dir_start_block,
        crate::bytes::le32(b, 12) == u.parent,
        crate::bytes::le16(b, 16) == u.index_count,
        crate::bytes::le16(b, 18) == d.dir_block_offset,
        crate::bytes::le32(b, 20) == d.xattr_index,
{
    assert(b.subrange(0, b.len() as int) =~= b);
    super::numbers::lemma_field32(b, 0, d.nlink, super::numbers::bytes32(d.file_size as u32) + (
        super::numbers::bytes32(d.dir_start_block) + (
        super::numbers::bytes32(u.parent) + (
        super::numbers::bytes16(u.index_count) + (
        super::numbers::bytes16(d.dir_block_offset) + (
        super::numbers::bytes32(d.xattr_index)))))));
    super::numbers::lemma_field32(b, 4, d.file_size as u32, super::numbers::bytes32(d.dir_start_block) + (
        super::numbers::bytes32(u.parent) + (
        super::numbers::bytes16(u.index_count) + (
        super::numbers::bytes16(d.dir_block_offset) + (
        super::numbers::bytes32(d.xattr_index))))));
    super::numbers::lemma_field32(b, 8, d.dir_start_block, super::numbers::bytes32(u.parent) + (
        super::numbers::bytes16(u.index_count) + (
        super::numbers::bytes16(d.dir_block_offset) + (
        super::numbers::bytes32(d.xattr_index)))));
    super::numbers::lemma_field32(b, 12, u.parent, super::numbers::bytes16(u.index_count) + (
        super::numbers::bytes16(d.dir_block_offset) + (
        super::numbers::bytes32(d.xattr_index))));
    super::numbers::lemma_field16(b, 16, u.index_count, super::numbers::bytes16(d.dir_block_offset) + (
        super::numbers::bytes32(d.xattr_index)));
    super::numbers::lemma_field16(b, 18, d.dir_block_offset, super::numbers::bytes32(d.xattr_index));
    super::numbers::lemma_last32(b, 20, d.xattr_index);
}

/// The fields of a basic file.
pub open spec fn basic_file_bytes(d: InodeData) -> Seq<u8> {
    super::numbers::bytes32(d.blocks_start as u32) + (
        super::numbers::bytes32(d.fragment_index) + (
        super::numbers::bytes32(d.fragment_offset) + (
        super::numbers::bytes32(d.file_size as u32))))
}

proof fn lemma_basic_file(b: Seq<u8>, d: InodeData)
    requires
        b == basic_file_bytes(d),
    ensures
        b.len() == 16,
        crate::bytes::le32(b, 0) == d.blocks_start as u32,
        crate::bytes::le32(b, 4) == d.fragment_index,
        crate::bytes::le32(b, 8) == d.fragment_offset,
        crate::bytes::le32(b, 12) == d.file_size as u32,
{
    assert(b.subrange(0, b.len() as int) =~= b);
    super::numbers::lemma_field32(b, 0, d.blocks_start as u32, super::numbers::bytes32(d.fragment_index) + (
        super::numbers::bytes32(d.fragment_offset) + (
        super::numbers::bytes32(d.file_size as u32))));
    super::numbers::lemma_field32(b, 4, d.fragment_index, super::numbers::bytes32(d.fragment_offset) + (
        super::numbers::bytes32(d.file_size as u32)));
    super::numbers::lemma_field32(b, 8, d.fragment_offset, super::numbers::bytes32(d.file_size as u32));
    super::numbers::lemma_last32(b, 12, d.file_size as u32);
}

/// The fields of an extended file.
pub open spec fn extended_file_bytes(d: InodeData, u: Unread) -> Seq<u8> {
    super::numbers::bytes64(d.blocks_start) + (
        super::numbers::bytes64(d.file_size) + (
        super::numbers::bytes64(u.sparse) + (
        super::numbers::bytes32(d.nlink) + (
        super::numbers::bytes32(d.fragment_index) + (
        super::numbers::bytes32(d.fragment_offset) + (
        super::numbers::bytes32(d.xattr_index)))))))
}

proof fn lemma_extended_file(b: Seq<u8>, d: InodeData, u: Unread)
    requires
        b == extended_file_bytes(d, u),
    ensures
        b.len() == 40,
        crate::bytes::le64(b, 0) == d.blocks_start,
        crate::bytes::le64(b, 8) == d.file_size,
        crate::bytes::le64(b, 16) == u.sparse,
        crate::bytes::le32(b, 24) == d.nlink,
        crate::bytes::le32(b, 28) == d.fragment_index,
        crate::bytes::le32(b, 32) == d.fragment_offset,
        crate::bytes::le32(b, 36) == d.xattr_index,
{
    assert(b.subrange(0, b.len() as int) =~= b);
    super::numbers::lemma_field64(b, 0, d.blocks_start, super::numbers::bytes64(d.file_size) + (
        super::numbers::bytes64(u.sparse) + (
        super::numbers::bytes32(d.nlink) + (
        super::numbers::bytes32(d.fragment_index) + (
        super::numbers::bytes32(d.fragment_offset) + (
        super::numbers::bytes32(d.xattr_index)))))));
    super::numbers::lemma_field64(b, 8, d.file_size, super::numbers::bytes64(u.sparse) + (
        super::numbers::bytes32(d.nlink) + (
        super::numbers::bytes32(d.fragment_index) + (
        super::numbers::bytes32(d.fragment_offset) + (
        super::numbers::bytes32(d.xattr_index))))));
    super::numbers::lemma_field64(b, 16, u.sparse, super::numbers::bytes32(d.nlink) + (
        super::numbers::bytes32(d.fragment_index) + (
        super::numbers::bytes32(d.fragment_offset) + (
        super::numbers::bytes32(d.xattr_index)))));
    super::numbers::lemma_field32(b, 24, d.nlink, super::numbers::bytes32(d.fragment_index) + (
        super::numbers::bytes32(d.fragment_offset) + (
        super::numbers::bytes32(d.xattr_index))));
    super::numbers::lemma_field32(b, 28, d.fragment_index, super::numbers::bytes32(d.fragment_offset) + (
        super::numbers::bytes32(d.xattr_index)));
    super::numbers::lemma_field32(b, 32, d.fragment_offset, super::numbers::bytes32(d.xattr_index));
    super::numbers::lemma_last32(b, 36, d.xattr_index);
}

/// The fields of a symlink.
pub open spec fn symlink_bytes(d: InodeData) -> Seq<u8> {
    super::numbers::bytes32(d.nlink) + (super::numbers::bytes32(d.file_size as u32))
}

proof fn lemma_symlink(b: Seq<u8>, d: InodeData)
    requires
        b == symlink_bytes(d),
    ensures
        b.len() == 8,
        crate::bytes::le32(b, 0) == d.nlink,
        crate::bytes::le32(b, 4) == d.file_size as u32,
{
    assert(b.subrange(0, b.len() as int) =~= b);
    super::numbers::lemma_field32(b, 0, d.nlink, super::numbers::bytes32(d.file_size as u32));
    super::numbers::lemma_last32(b, 4, d.file_size as u32);
}

/// The fields of a basic device.
pub open spec fn basic_device_bytes(d: InodeData) -> Seq<u8> {
    super::numbers::bytes32(d.nlink) + (super::numbers::bytes32(d.rdev))
}

proof fn lemma_basic_device(b: Seq<u8>, d: InodeData)
    requires
        b == basic_device_bytes(d),
    ensures
        b.len() == 8,
        crate::bytes::le32(b, 0) == d.nlink,
        crate::bytes::le32(b, 4) == d.rdev,
{
    assert(b.subrange(0, b.len() as int) =~= b);
    super::numbers::lemma_field32(b, 0, d.nlink, super::numbers::bytes32(d.rdev));
    super::numbers::lemma_last32(b, 4, d.rdev);
}

/// The fields of an extended device.
pub open spec fn extended_device_bytes(d: InodeData) -> Seq<u8> {
    super::numbers::bytes32(d.nlink) + (
        super::numbers::bytes32(d.rdev) + (
        super::numbers::bytes32(d.xattr_index)))
}

proof fn lemma_extended_device(b: Seq<u8>, d: InodeData)
    requires
        b == extended_device_bytes(d),
    ensures
        b.len() == 12,
        crate::bytes::le32(b, 0) == d.nlink,
        crate::bytes::le32(b, 4) == d.rdev,
        crate::bytes::le32(b, 8) == d.xattr_index,
{
    assert(b.subrange(0, b.len() as int) =~= b);
    super::numbers::lemma_field32(b, 0, d.nlink, super::numbers::bytes32(d.rdev) + (
        super::numbers::bytes32(d.xattr_index)));
    super::numbers::lemma_field32(b, 4, d.rdev, super::numbers::bytes32(d.xattr_index));
    super::numbers::lemma_last32(b, 8, d.xattr_index);
}

/// The fields of a basic fifo or socket.
pub open spec fn basic_ipc_bytes(d: InodeData) -> Seq<u8> {
    super::numbers::bytes32(d.nlink)
}

proof fn lemma_basic_ipc(b: Seq<u8>, d: InodeData)
    requires
        b == basic_ipc_bytes(d),
    ensures
        b.len() == 4,
        crate::bytes::le32(b, 0) == d.nlink,
{
    assert(b.subrange(0, b.len() as int) =~= b);
    super::numbers::lemma_last32(b, 0, d.nlink);
}

/// The fields of an extended fifo or socket.
pub open spec fn extended_ipc_bytes(d: InodeData) -> Seq<u8> {
    super::numbers::bytes32(d.nlink) + (super::numbers::bytes32(d.xattr_index))
}

proof fn lemma_extended_ipc(b: Seq<u8>, d: InodeData)
    requires
        b == extended_ipc_bytes(d),
    ensures
        b.len() == 8,
        crate::bytes::le32(b, 0) == d.nlink,
        crate::bytes::le32(b, 4) == d.xattr_index,
{
    assert(b.subrange(0, b.len() as int) =~= b);
    super::numbers::lemma_field32(b, 0, d.nlink, super::numbers::bytes32(d.xattr_index));
    super::numbers::lemma_last32(b, 4, d.xattr_index);
}

/// The fields of `d` that every inode has, and nothing else.
pub open spec fn common_part(d: InodeData) -> InodeData {
    InodeData {
        nlink: 1,
        file_size: 0,
        rdev: 0,
        xattr_index: 0xFFFF_FFFF,
        dir_start_block: 0,
        dir_block_offset: 0,
        blocks_start: 0,
        fragment_index: 0xFFFF_FFFF,
        fragment_offset: 0,
        block_sizes: Seq::empty(),
        symlink_target: Seq::empty(),
        ..d
    }
}

/// Whether a file has as many blocks as its size calls for: all of it, or all
/// but a tail that is shorter than a block and stands in a fragment.
pub open spec fn has_its_blocks(d: InodeData, block_size: nat) -> bool {
    let n = d.block_sizes.len();
    &&& n <= 0x100_0000
    &&& if d.fragment_index == 0xFFFF_FFFF {
        n * block_size < d.file_size + block_size && d.file_size <= n * block_size
    } else {
        n * block_size <= d.file_size < n * block_size + block_size
    }
}

/// Whether a writer may write `d`: it has the fields of its type, and those
/// fit their places.
pub open spec fn is_inode(d: InodeData, block_size: nat) -> bool {
    let t = d.inode_type;
    let c = common_part(d);
    if t == 1 {
        d.file_size < 0x1_0000 && d == (InodeData {
            nlink: d.nlink,
            file_size: d.file_size,
            dir_start_block: d.dir_start_block,
            dir_block_offset: d.dir_block_offset,
            ..c
        })
    } else if t == 8 {
        d.file_size < 0x1_0000_0000 && d == (InodeData {
            nlink: d.nlink,
            file_size: d.file_size,
            dir_start_block: d.dir_start_block,
            dir_block_offset: d.dir_block_offset,
            xattr_index: d.xattr_index,
            ..c
        })
    } else if t == 2 {
        d.file_size < 0x1_0000_0000 && d.blocks_start < 0x1_0000_0000 && has_its_blocks(
            d,
            block_size,
        ) && d == (InodeData {
            file_size: d.file_size,
            blocks_start: d.blocks_start,
            fragment_index: d.fragment_index,
            fragment_offset: d.fragment_offset,
            block_sizes: d.block_sizes,
            ..c
        })
    } else if t == 9 {
        has_its_blocks(d, block_size) && d == (InodeData {
            nlink: d.nlink,
            file_size: d.file_size,
            xattr_index: d.xattr_index,
            blocks_start: d.blocks_start,
            fragment_index: d.fragment_index,
            fragment_offset: d.fragment_offset,
            block_sizes: d.block_sizes,
            ..c
        })
    } else if t == 3 || t == 10 {
        d.symlink_target.len() == d.file_size && d.file_size <= 65536 && d == (InodeData {
            nlink: d.nlink,
            file_size: d.file_size,
            symlink_target: d.symlink_target,
            xattr_index: if t == 3 {
                0xFFFF_FFFF
            } else {
                d.xattr_index
            },
            ..c
        })
    } else if t == 4 || t == 5 {
        d == (InodeData { nlink: d.nlink, rdev: d.rdev, ..c })
    } else if t == 11 || t == 12 {
        d == (InodeData { nlink: d.nlink, rdev: d.rdev, xattr_index: d.xattr_index, ..c })
    } else if t == 6 || t == 7 {
        d == (InodeData { nlink: d.nlink, ..c })
    } else if t == 13 || t == 14 {
        d == (InodeData { nlink: d.nlink, xattr_index: d.xattr_index, ..c })
    } else {
        false
    }
}

/// The fixed fields behind the common ones.
pub open spec fn body_bytes(d: InodeData, u: Unread) -> Seq<u8> {
    let t = d.inode_type;
    if t == 1 {
        basic_dir_bytes(d, u)
    } else if t == 8 {
        extended_dir_bytes(d, u)
    } else if t == 2 {
        basic_file_bytes(d)
    } else if t == 9 {
        extended_file_bytes(d, u)
    } else if t == 3 || t == 10 {
        symlink_bytes(d)
    } else if t == 4 || t == 5 {
        basic_device_bytes(d)
    } else if t == 11 || t == 12 {
        extended_device_bytes(d)
    } else if t == 6 || t == 7 {
        basic_ipc_bytes(d)
    } else {
        extended_ipc_bytes(d)
    }
}

/// What follows the fixed fields: the size words of a file, or the target of a
/// symlink and, in the extended form, its attribute index.
pub open spec fn tail_bytes(d: InodeData) -> Seq<u8> {
    let t = d.inode_type;
    if t == 2 || t == 9 {
        super::numbers::all_bytes32(d.block_sizes)
    } else if t == 3 {
        d.symlink_target
    } else if t == 10 {
        d.symlink_target + super::numbers::bytes32(d.xattr_index)
    } else {
        Seq::empty()
    }
}

/// The bytes of an inode.
pub open spec fn inode_bytes(d: InodeData, u: Unread) -> Seq<u8> {
    header_bytes(d) + (body_bytes(d, u) + tail_bytes(d))
}

proof fn lemma_block_count(d: InodeData, block_size: nat)
    requires
        0 < block_size <= u64::MAX,
        has_its_blocks(d, block_size),
    ensures
        crate::inode::data_blocks(d.file_size, block_size as u64, d.fragment_index) == Ok::<
            nat,
            Error,
        >(d.block_sizes.len()),
{
    let n = d.block_sizes.len() as int;
    let bs = block_size as int;
    let size = d.file_size as int;
    vstd::arithmetic::div_mod::lemma_fundamental_div_mod(size, bs);
    let q = size / bs;
    let r = size % bs;
    assert(0 <= r < bs) by {
        vstd::arithmetic::div_mod::lemma_mod_bound(size, bs);
    }
    if d.fragment_index == 0xFFFF_FFFF {
        if r == 0 {
            assert(n == q) by (nonlinear_arith)
                requires
                    size == bs * q,
                    bs > 0,
                    n * bs < size + bs,
                    size <= n * bs,
            ;
        } else {
            assert(n == q + 1) by (nonlinear_arith)
                requires
                    size == bs * q + r,
                    0 < r < bs,
                    n * bs < size + bs,
                    size <= n * bs,
            ;
        }
    } else {
        assert(n == q) by (nonlinear_arith)
            requires
                size == bs * q + r,
                0 <= r < bs,
                n * bs <= size,
                size < n * bs + bs,
        ;
    }
}

/// The fixed fields of an inode are read back.
#[verifier::rlimit(60)]
proof fn lemma_body(d: InodeData, u: Unread, block_size: nat)
    requires
        is_inode(d, block_size),
    ensures
        crate::inode::body_len(d.inode_type) == Ok::<nat, Error>(body_bytes(d, u).len()),
        crate::inode::with_body(common_part(d), body_bytes(d, u)) == (InodeData {
            block_sizes: Seq::empty(),
            symlink_target: Seq::empty(),
            xattr_index: if d.inode_type == 10 {
                0xFFFF_FFFF
            } else {
                d.xattr_index
            },
            ..d
        }),
{
    let t = d.inode_type;
    let b = body_bytes(d, u);
    let got = crate::inode::with_body(common_part(d), b);
    let want = InodeData {
        block_sizes: Seq::empty(),
        symlink_target: Seq::empty(),
        xattr_index: if t == 10 {
            0xFFFF_FFFF
        } else {
            d.xattr_index
        },
        ..d
    };
    if t == 1 {
        lemma_basic_dir(b, d, u);
    } else if t == 8 {
        lemma_extended_dir(b, d, u);
    } else if t == 2 {
        lemma_basic_file(b, d);
    } else if t == 9 {
        lemma_extended_file(b, d, u);
    } else if t == 3 || t == 10 {
        lemma_symlink(b, d);
    } else if t == 4 || t == 5 {
        lemma_basic_device(b, d);
    } else if t == 11 || t == 12 {
        lemma_extended_device(b, d);
    } else if t == 6 || t == 7 {
        lemma_basic_ipc(b, d);
    } else {
        lemma_extended_ipc(b, d);
    }
    assert(got =~= want);
}

/// What follows the fixed fields is read back.
#[verifier::rlimit(40)]
proof fn lemma_tail(
    image: Seq<u8>,
    compression_id: u16,
    s: Stream,
    d: InodeData,
    block_size: nat,
)
    requires
        0 < block_size <= u64::MAX,
        is_inode(d, block_size),
        super::metablock::comes_next(image, compression_id, s, tail_bytes(d)),
    ensures
        crate::inode::with_tail(
            image,
            compression_id,
            block_size as u64,
            s,
            InodeData {
                block_sizes: Seq::empty(),
                symlink_target: Seq::empty(),
                xattr_index: if d.inode_type == 10 {
                    0xFFFF_FFFF
                } else {
                    d.xattr_index
                },
                ..d
            },
        ) == Ok::<InodeData, Error>(d),
{
    let t = d.inode_type;
    if t == 2 || t == 9 {
        lemma_block_count(d, block_size);
        let words = super::numbers::all_bytes32(d.block_sizes);
        super::numbers::lemma_all_bytes32_len(d.block_sizes);
        assert(words.subrange(0, words.len() as int) =~= words);
        let n = d.block_sizes.len();
        let read = Seq::new(n, |i: int| crate::bytes::le32(words, 4 * i));
        assert forall|i: int| 0 <= i < n implies read[i] == d.block_sizes[i] by {
            numbers32_are_read_back(words, 0, d.block_sizes, i);
        }
        assert(read =~= d.block_sizes);
        assert(d =~= (InodeData { block_sizes: read, symlink_target: Seq::empty(), ..d }));
    } else if t == 3 {
        assert(d =~= (InodeData { block_sizes: Seq::empty(), ..d }));
    } else if t == 10 {
        let x = super::numbers::bytes32(d.xattr_index);
        lemma_comes_apart(image, compression_id, s, d.symlink_target, x);
        assert(x.subrange(0, 4) =~= x);
        reveal(super::numbers::holds32);
        number32_is_read_back(x, 0, d.xattr_index);
        assert(d =~= (InodeData { block_sizes: Seq::empty(), ..d }));
    } else {
        assert(d =~= (InodeData {
            block_sizes: Seq::empty(),
            symlink_target: Seq::empty(),
            ..d
        }));
    }
}

/// The fields of an inode are read from their own bytes.
pub proof fn lemma_fields(d: InodeData, u: Unread, block_size: nat)
    requires
        is_inode(d, block_size),
    ensures
        header_bytes(d).len() == 16,
        crate::inode::common_fields(header_bytes(d)) == common_part(d),
        crate::inode::body_len(d.inode_type) == Ok::<nat, Error>(body_bytes(d, u).len()),
        crate::inode::with_body(common_part(d), body_bytes(d, u)) == (InodeData {
            block_sizes: Seq::empty(),
            symlink_target: Seq::empty(),
            xattr_index: if d.inode_type == 10 {
                0xFFFF_FFFF
            } else {
                d.xattr_index
            },
            ..d
        }),
        d.inode_type == 2 || d.inode_type == 9 ==> (0 < block_size <= u64::MAX
            ==> crate::inode::data_blocks(
            d.file_size,
            block_size as u64,
            d.fragment_index,
        ) == Ok::<nat, Error>(d.block_sizes.len())),
{
    lemma_header(header_bytes(d), d);
    assert(crate::inode::common_fields(header_bytes(d)) =~= common_part(d));
    lemma_body(d, u, block_size);
    if (d.inode_type == 2 || d.inode_type == 9) && 0 < block_size <= u64::MAX {
        lemma_block_count(d, block_size);
    }
}

/// An inode that was written is read back, of every type and with all its
/// fields.
pub proof fn inode_is_read_back(
    image: Seq<u8>,
    compression_id: u16,
    block_size: u64,
    s: Stream,
    d: InodeData,
    u: Unread,
)
    requires
        block_size > 0,
        is_inode(d, block_size as nat),
        super::metablock::comes_next(image, compression_id, s, inode_bytes(d, u)),
    ensures
        crate::inode::inode_in(image, compression_id, block_size, s) == Ok::<InodeData, Error>(d),
{
    let h = header_bytes(d);
    let b = body_bytes(d, u);
    lemma_header(h, d);
    lemma_comes_apart(image, compression_id, s, h, b + tail_bytes(d));
    let s1 = super::metablock::behind(image, compression_id, s, 16);
    lemma_comes_apart(image, compression_id, s1, b, tail_bytes(d));
    let s2 = super::metablock::behind(image, compression_id, s1, b.len());
    assert(crate::inode::common_fields(h) =~= common_part(d));
    lemma_body(d, u, block_size as nat);
    lemma_tail(image, compression_id, s2, d, block_size as nat);
}

/// An inode is found where its reference leads: so many bytes into the block
/// that starts so far behind the start of the inode table.
pub proof fn inode_is_found(
    image: Seq<u8>,
    sb: Superblock,
    block: u64,
    in_block: u16,
    s: Stream,
    d: InodeData,
    u: Unread,
)
    requires
        block < 0x1_0000_0000_0000,
        sb.inode_table_start + block <= u64::MAX,
        sb.block_size > 0,
        is_inode(d, sb.block_size as nat),
        crate::metablock::stream_at(
            image,
            sb.compression_id,
            (sb.inode_table_start + block) as nat,
            in_block as nat,
        ) == Ok::<Stream, Error>(s),
        super::metablock::comes_next(image, sb.compression_id, s, inode_bytes(d, u)),
    ensures
        crate::inode::inode_at(image, sb, (block * 0x1_0000 + in_block) as u64) == Ok::<
            InodeData,
            Error,
        >(d),
{
    super::metablock::references_lead_to_their_place(sb.inode_table_start, block, in_block);
    inode_is_read_back(image, sb.compression_id, sb.block_size as u64, s, d, u);
}

/// An inode of a type that does not exist is refused.
pub proof fn other_types_are_refused(
    image: Seq<u8>,
    compression_id: u16,
    block_size: u64,
    s: Stream,
    d: InodeData,
)
    requires
        d.inode_type == 0 || d.inode_type > 14,
        super::metablock::comes_next(image, compression_id, s, header_bytes(d)),
    ensures
        crate::inode::inode_in(image, compression_id, block_size, s) matches Err(
            Error::BadInode(_),
        ),
{
    lemma_header(header_bytes(d), d);
}

/// The kind of file that each type is of, basic or extended, and its type bits
/// and code: those of `stat` and of the C interface.
pub proof fn types_are_of_their_kind(t: u16)
    ensures
        ({
            let k = crate::inode::type_of(t);
            &&& k == FileType::Dir <==> t == 1 || t == 8
            &&& k == FileType::RegFile <==> t == 2 || t == 9
            &&& k == FileType::Symlink <==> t == 3 || t == 10
            &&& k == FileType::BlockDev <==> t == 4 || t == 11
            &&& k == FileType::CharDev <==> t == 5 || t == 12
            &&& k == FileType::Fifo <==> t == 6 || t == 13
            &&& k == FileType::Socket <==> t == 7 || t == 14
            &&& k == FileType::Unknown <==> t == 0 || t > 14
        }),
{
}

/// Every kind of file has its own code, counted in the order of the C
/// interface, and its own type bits, those of POSIX.
pub proof fn kinds_have_their_codes(kinds: Seq<FileType>)
    requires
        kinds == seq![
            FileType::Unknown,
            FileType::RegFile,
            FileType::Dir,
            FileType::CharDev,
            FileType::BlockDev,
            FileType::Fifo,
            FileType::Socket,
            FileType::Symlink,
        ],
    ensures
        forall|i: int| 0 <= i < 8 ==> (#[trigger] kinds[i]).abi_code() == i,
        forall|i: int| 0 <= i < 8 ==> (#[trigger] kinds[i]).type_bits() == seq![
            0u16,
            0x8000,
            0x4000,
            0x2000,
            0x6000,
            0x1000,
            0xC000,
            0xA000,
        ][i],
{
    assert forall|i: int| 0 <= i < 8 implies (#[trigger] kinds[i]).abi_code() == i by {
        assert(i == 0 || i == 1 || i == 2 || i == 3 || i == 4 || i == 5 || i == 6 || i == 7);
    }
    assert forall|i: int| 0 <= i < 8 implies (#[trigger] kinds[i]).type_bits() == seq![
        0u16,
        0x8000,
        0x4000,
        0x2000,
        0x6000,
        0x1000,
        0xC000,
        0xA000,
    ][i] by {
        assert(i == 0 || i == 1 || i == 2 || i == 3 || i == 4 || i == 5 || i == 6 || i == 7);
    }
}

} // verus!
