//! The superblock: 96 bytes at offset 0, all fields little-endian.

use vstd::prelude::*;

use crate::bytes::{get_le16, get_le32, get_le64};
use crate::decompress::Compressor;
use crate::device::BlockRead;
use crate::error::{Error, Result};
use crate::table::NO_TABLE;

verus! {

/// "hsqs", little-endian: the magic of SquashFS 4.0 at offset 0.
pub const SQUASHFS_MAGIC: u32 = 0x7371_7368;

/// The size of the superblock.
pub const SUPERBLOCK_SIZE: usize = 96;

/// What a metadata block decompresses to at most.
pub const METADATA_SIZE: usize = 8192;

/// The one minor version of SquashFS 4 there is.
pub const SQUASHFS_MINOR: u16 = 0;

/// The smallest `block_log`: blocks of 4 KiB.
pub const MIN_BLOCK_LOG: u16 = 12;

/// The largest `block_log`: blocks of 1 MiB.
pub const MAX_BLOCK_LOG: u16 = 20;

/// The fragment index of a file without a tail fragment.
pub const SQUASHFS_INVALID_FRAG: u32 = 0xFFFF_FFFF;

/// A parsed superblock. Names are those of the on-disk structure.
#[derive(Debug, Clone)]
pub struct Superblock {
    pub magic: u32,
    pub inode_count: u32,
    pub modification_time: u32,
    pub block_size: u32,
    pub fragment_entry_count: u32,
    pub compression_id: u16,
    pub block_log: u16,
    pub flags: u16,
    pub id_count: u16,
    pub version_major: u16,
    pub version_minor: u16,
    /// Metadata reference to the root inode: the upper 48 bits are the
    /// offset of its metadata block from `inode_table_start`, the lower 16
    /// the offset within the decompressed block.
    pub root_inode_ref: u64,
    pub bytes_used: u64,
    pub id_table_start: u64,
    pub xattr_id_table_start: u64,
    pub inode_table_start: u64,
    pub directory_table_start: u64,
    pub fragment_table_start: u64,
    pub export_table_start: u64,
}

/// The superblock in the first 96 bytes of `b`.
pub open spec fn parsed(b: Seq<u8>) -> Result<Superblock> {
    if b.len() < SUPERBLOCK_SIZE {
        Err(Error::BadSuperblock("buffer shorter than 96 bytes"))
    } else if crate::bytes::le32(b, 0x00) != SQUASHFS_MAGIC {
        Err(Error::NotSquashfs)
    } else if crate::bytes::le16(b, 0x1C) != 4 {
        Err(Error::BadSuperblock("only SquashFS 4.x is supported"))
    } else if crate::bytes::le16(b, 0x1E) > SQUASHFS_MINOR {
        Err(Error::BadSuperblock("unknown SquashFS minor version (only 4.0 is supported)"))
    } else if !(MIN_BLOCK_LOG <= crate::bytes::le16(b, 0x16) <= MAX_BLOCK_LOG) {
        Err(Error::BadSuperblock("block_log out of range"))
    } else if crate::bytes::le32(b, 0x0C) != 1u32 << crate::bytes::le16(b, 0x16) {
        Err(Error::BadSuperblock("block_size != 1 << block_log"))
    } else {
        Ok(
            Superblock {
                magic: SQUASHFS_MAGIC,
                inode_count: crate::bytes::le32(b, 0x04),
                modification_time: crate::bytes::le32(b, 0x08),
                block_size: crate::bytes::le32(b, 0x0C),
                fragment_entry_count: crate::bytes::le32(b, 0x10),
                compression_id: crate::bytes::le16(b, 0x14),
                block_log: crate::bytes::le16(b, 0x16),
                flags: crate::bytes::le16(b, 0x18),
                id_count: crate::bytes::le16(b, 0x1A),
                version_major: crate::bytes::le16(b, 0x1C),
                version_minor: crate::bytes::le16(b, 0x1E),
                root_inode_ref: crate::bytes::le64(b, 0x20),
                bytes_used: crate::bytes::le64(b, 0x28),
                id_table_start: crate::bytes::le64(b, 0x30),
                xattr_id_table_start: crate::bytes::le64(b, 0x38),
                inode_table_start: crate::bytes::le64(b, 0x40),
                directory_table_start: crate::bytes::le64(b, 0x48),
                fragment_table_start: crate::bytes::le64(b, 0x50),
                export_table_start: crate::bytes::le64(b, 0x58),
            },
        )
    }
}

impl Superblock {
    /// What every parsed superblock satisfies.
    pub open spec fn wf(&self) -> bool {
        &&& MIN_BLOCK_LOG <= self.block_log <= MAX_BLOCK_LOG
        &&& self.block_size == 1u32 << self.block_log
        &&& 4096 <= self.block_size <= 0x10_0000
    }

    /// Parses and validates a superblock from a buffer of at least 96 bytes.
    pub fn parse(b: &[u8]) -> (r: Result<Self>)
        ensures
            r == parsed(b@),
            r matches Ok(sb) ==> sb.wf(),
    {
        if b.len() < SUPERBLOCK_SIZE {
            return Err(Error::BadSuperblock("buffer shorter than 96 bytes"));
        }
        let magic: u32 = get_le32(b, 0x00);
        if magic != SQUASHFS_MAGIC {
            return Err(Error::NotSquashfs);
        }
        // The version first: a 3.x superblock shares the magic and the place
        // of the major version, but not that of `block_log`.
        let version_major: u16 = get_le16(b, 0x1C);
        let version_minor: u16 = get_le16(b, 0x1E);
        if version_major != 4 {
            return Err(Error::BadSuperblock("only SquashFS 4.x is supported"));
        }
        if version_minor > SQUASHFS_MINOR {
            return Err(
                Error::BadSuperblock("unknown SquashFS minor version (only 4.0 is supported)"),
            );
        }
        let block_log: u16 = get_le16(b, 0x16);
        if block_log < MIN_BLOCK_LOG || block_log > MAX_BLOCK_LOG {
            return Err(Error::BadSuperblock("block_log out of range"));
        }
        let block_size: u32 = get_le32(b, 0x0C);
        if block_size != 1u32 << block_log {
            return Err(Error::BadSuperblock("block_size != 1 << block_log"));
        }
        proof {
            lemma_block_sizes(block_log);
        }
        Ok(
            Superblock {
                magic,
                inode_count: get_le32(b, 0x04),
                modification_time: get_le32(b, 0x08),
                block_size,
                fragment_entry_count: get_le32(b, 0x10),
                compression_id: get_le16(b, 0x14),
                block_log,
                flags: get_le16(b, 0x18),
                id_count: get_le16(b, 0x1A),
                version_major,
                version_minor,
                root_inode_ref: get_le64(b, 0x20),
                bytes_used: get_le64(b, 0x28),
                id_table_start: get_le64(b, 0x30),
                xattr_id_table_start: get_le64(b, 0x38),
                inode_table_start: get_le64(b, 0x40),
                directory_table_start: get_le64(b, 0x48),
                fragment_table_start: get_le64(b, 0x50),
                export_table_start: get_le64(b, 0x58),
            },
        )
    }

    /// Whether a table that starts at `t` starts behind the superblock and
    /// inside the image.
    pub open spec fn in_image(&self, t: u64) -> bool {
        SUPERBLOCK_SIZE <= t < self.bytes_used
    }

    /// Whether an optional table is absent or starts inside the image.
    pub open spec fn absent_or_in_image(&self, t: u64) -> bool {
        t == NO_TABLE || self.in_image(t)
    }

    /// The directory table and the tables that follow it, in the order in
    /// which an image holds them.
    pub open spec fn table_starts(&self) -> Seq<u64> {
        seq![
            self.directory_table_start,
            self.fragment_table_start,
            self.export_table_start,
            self.id_table_start,
            self.xattr_id_table_start,
        ]
    }

    /// Whether no table that is present starts before one that precedes it.
    pub open spec fn tables_in_order(&self) -> bool {
        forall|i: int, j: int|
            0 <= i < j < 5 && self.table_starts()[i] != NO_TABLE && self.table_starts()[j]
                != NO_TABLE ==> #[trigger] self.table_starts()[i]
                <= #[trigger] self.table_starts()[j]
    }

    /// Whether the superblock fits a device of `device_size` bytes, or what
    /// is wrong with it.
    pub open spec fn placed(&self, device_size: u64) -> Result<()> {
        if self.bytes_used > device_size {
            Err(Error::BadSuperblock("bytes_used exceeds the size of the device"))
        } else if !(self.in_image(self.inode_table_start) && self.in_image(
            self.directory_table_start,
        ) && self.in_image(self.id_table_start) && self.absent_or_in_image(
            self.fragment_table_start,
        ) && self.absent_or_in_image(self.export_table_start) && self.absent_or_in_image(
            self.xattr_id_table_start,
        )) {
            Err(Error::BadSuperblock("a table starts outside [superblock end, bytes_used)"))
        } else if self.inode_table_start >= self.directory_table_start {
            Err(
                Error::BadSuperblock(
                    "table starts are out of order (inode table not before directory table)",
                ),
            )
        } else if !self.tables_in_order() {
            Err(Error::BadSuperblock("table starts are out of order"))
        } else if self.inode_table_start + self.root_inode_ref / 0x1_0000
            >= self.directory_table_start {
            Err(Error::BadSuperblock("root inode reference points outside the inode table"))
        } else {
            Ok(())
        }
    }

    /// Checks the superblock's sizes and table starts against the device it
    /// was read from.
    ///
    /// An image holds the inode table, then the directory table, then the
    /// fragment, export, id and xattr tables in that order, all below
    /// `bytes_used`. An absent optional table carries [`NO_TABLE`] and is
    /// left out of the ordering.
    pub fn validate_against_device(&self, device_size: u64) -> (r: Result<()>)
        ensures
            r == self.placed(device_size),
    {
        if self.bytes_used > device_size {
            return Err(Error::BadSuperblock("bytes_used exceeds the size of the device"));
        }
        let start: u64 = SUPERBLOCK_SIZE as u64;
        let required: [u64; 3] = [
            self.inode_table_start,
            self.directory_table_start,
            self.id_table_start,
        ];
        let mut i: usize = 0;
        while i < 3
            invariant
                start == SUPERBLOCK_SIZE,
                i <= 3,
                self.bytes_used <= device_size,
                required@ == seq![
                    self.inode_table_start,
                    self.directory_table_start,
                    self.id_table_start,
                ],
                i > 0 ==> self.in_image(self.inode_table_start),
                i > 1 ==> self.in_image(self.directory_table_start),
                i > 2 ==> self.in_image(self.id_table_start),
            decreases 3 - i,
        {
            let t: u64 = required[i];
            if t < start || t >= self.bytes_used {
                return Err(
                    Error::BadSuperblock("a table starts outside [superblock end, bytes_used)"),
                );
            }
            i = i + 1;
        }
        let optional: [u64; 3] = [
            self.fragment_table_start,
            self.export_table_start,
            self.xattr_id_table_start,
        ];
        let mut i: usize = 0;
        while i < 3
            invariant
                start == SUPERBLOCK_SIZE,
                i <= 3,
                self.bytes_used <= device_size,
                optional@ == seq![
                    self.fragment_table_start,
                    self.export_table_start,
                    self.xattr_id_table_start,
                ],
                i > 0 ==> self.absent_or_in_image(self.fragment_table_start),
                i > 1 ==> self.absent_or_in_image(self.export_table_start),
                i > 2 ==> self.absent_or_in_image(self.xattr_id_table_start),
            decreases 3 - i,
        {
            let t: u64 = optional[i];
            if t != NO_TABLE && (t < start || t >= self.bytes_used) {
                return Err(
                    Error::BadSuperblock("a table starts outside [superblock end, bytes_used)"),
                );
            }
            i = i + 1;
        }
        if self.inode_table_start >= self.directory_table_start {
            return Err(
                Error::BadSuperblock(
                    "table starts are out of order (inode table not before directory table)",
                ),
            );
        }
        if !self.in_order() {
            return Err(Error::BadSuperblock("table starts are out of order"));
        }
        let root_block: u64 = self.root_inode_ref / 0x1_0000;
        if root_block >= self.directory_table_start - self.inode_table_start {
            return Err(
                Error::BadSuperblock("root inode reference points outside the inode table"),
            );
        }
        Ok(())
    }

    fn in_order(&self) -> (r: bool)
        requires
            self.directory_table_start != NO_TABLE,
        ensures
            r == self.tables_in_order(),
    {
        let starts: [u64; 5] = [
            self.directory_table_start,
            self.fragment_table_start,
            self.export_table_start,
            self.id_table_start,
            self.xattr_id_table_start,
        ];
        let mut prev: u64 = self.directory_table_start;
        // Where the last table that is present was found.
        let mut last: usize = 0;
        let mut i: usize = 1;
        while i < 5
            invariant
                1 <= i <= 5,
                starts@ =~= self.table_starts(),
                last < i,
                prev == self.table_starts()[last as int] && prev != NO_TABLE,
                forall|k: int|
                    last < k < i ==> #[trigger] self.table_starts()[k] == NO_TABLE,
                forall|j: int, k: int|
                    0 <= j < k < i && self.table_starts()[j] != NO_TABLE && self.table_starts()[k]
                        != NO_TABLE ==> #[trigger] self.table_starts()[j]
                        <= #[trigger] self.table_starts()[k],
            decreases 5 - i,
        {
            let t: u64 = starts[i];
            assert(t == self.table_starts()[i as int]);
            if t != NO_TABLE {
                if t < prev {
                    assert(!(self.table_starts()[last as int] <= self.table_starts()[i as int]));
                    return false;
                }
                assert forall|j: int|
                    0 <= j < i && self.table_starts()[j] != NO_TABLE implies self.table_starts()[j]
                    <= t by {
                    if j < last {
                        assert(self.table_starts()[j] <= self.table_starts()[last as int]);
                    }
                }
                prev = t;
                last = i;
            }
            i = i + 1;
        }
        true
    }

    /// Whether a table start can end the directory table.
    pub open spec fn ends_directory_table(&self, t: u64) -> bool {
        &&& t != NO_TABLE && t > self.directory_table_start
        &&& t == self.fragment_table_start || t == self.export_table_start || t
            == self.id_table_start || t == self.xattr_id_table_start || t == self.bytes_used
    }

    /// Where the directory table ends at the latest, as far as the
    /// superblock can say: at the nearest table start behind it or at the
    /// end of the image, `u64::MAX` where none of these is known.
    pub fn directory_table_end(&self) -> (r: u64)
        ensures
            forall|t: u64| #[trigger] self.ends_directory_table(t) ==> r <= t,
            self.ends_directory_table(r) || (r == u64::MAX && forall|t: u64|
                !#[trigger] self.ends_directory_table(t)),
    {
        let mut end: u64 = NO_TABLE;
        if self.fragment_table_start > self.directory_table_start && self.fragment_table_start
            < end {
            end = self.fragment_table_start;
        }
        if self.export_table_start > self.directory_table_start && self.export_table_start < end {
            end = self.export_table_start;
        }
        if self.id_table_start > self.directory_table_start && self.id_table_start < end {
            end = self.id_table_start;
        }
        if self.xattr_id_table_start > self.directory_table_start && self.xattr_id_table_start
            < end {
            end = self.xattr_id_table_start;
        }
        if self.bytes_used > self.directory_table_start && self.bytes_used < end {
            end = self.bytes_used;
        }
        end
    }

    /// The compressor of the whole image.
    pub fn compressor(&self) -> (r: Result<Compressor>)
        ensures
            r == crate::decompress::compressor_of(self.compression_id),
    {
        Compressor::from_id(self.compression_id)
    }
}

/// The superblock of `image`.
pub open spec fn superblock_of(image: Seq<u8>) -> Result<Superblock> {
    match crate::device::served(image, 0, SUPERBLOCK_SIZE as nat) {
        Ok(b) => parsed(b),
        Err(e) => Err(Error::Block(e)),
    }
}

/// Reads and parses the superblock from a device.
pub fn read<R: BlockRead>(dev: &R) -> (r: Result<Superblock>)
    ensures
        crate::error::outcome(dev.dependable(), r, superblock_of(dev.image())),
        r matches Ok(sb) ==> sb.wf(),
{
    match dev.read_at(0, SUPERBLOCK_SIZE) {
        Ok(buf) => Superblock::parse(buf.as_slice()),
        Err(e) => Err(Error::Block(e)),
    }
}

/// The block sizes there are.
pub proof fn lemma_block_sizes(log: u16)
    requires
        12 <= log <= 20,
    ensures
        4096 <= (1u32 << log) <= 0x10_0000,
        log == 12 ==> 1u32 << log == 0x1000,
        log == 13 ==> 1u32 << log == 0x2000,
        log == 14 ==> 1u32 << log == 0x4000,
        log == 15 ==> 1u32 << log == 0x8000,
        log == 16 ==> 1u32 << log == 0x1_0000,
        log == 17 ==> 1u32 << log == 0x2_0000,
        log == 18 ==> 1u32 << log == 0x4_0000,
        log == 19 ==> 1u32 << log == 0x8_0000,
        log == 20 ==> 1u32 << log == 0x10_0000,
{
    assert((log == 12 ==> 1u32 << log == 0x1000) && (log == 13 ==> 1u32 << log == 0x2000) && (log
        == 14 ==> 1u32 << log == 0x4000) && (log == 15 ==> 1u32 << log == 0x8000) && (log == 16
        ==> 1u32 << log == 0x1_0000) && (log == 17 ==> 1u32 << log == 0x2_0000) && (log == 18
        ==> 1u32 << log == 0x4_0000) && (log == 19 ==> 1u32 << log == 0x8_0000) && (log == 20
        ==> 1u32 << log == 0x10_0000)) by (bit_vector);
}

/// The superblock of an image has a block size that is a power of two from
/// 4 KiB to 1 MiB, and the one its `block_log` says.
pub proof fn superblock_has_a_sound_block_size(image: Seq<u8>)
    ensures
        superblock_of(image) matches Ok(sb) ==> sb.wf(),
{
    if let Ok(sb) = superblock_of(image) {
        lemma_block_sizes(sb.block_log);
    }
}

/// Where a superblock is accepted for a device, every table it names starts
/// behind the superblock and before the end of the device, the root inode's
/// block lies in the inode table, and no table starts before one that
/// precedes it.
pub proof fn accepted_superblock_is_placed(sb: Superblock, device_size: u64)
    requires
        sb.placed(device_size) is Ok,
    ensures
        SUPERBLOCK_SIZE <= sb.inode_table_start < sb.directory_table_start < device_size,
        sb.directory_table_start <= sb.id_table_start < device_size,
        sb.inode_table_start + sb.root_inode_ref / 0x1_0000 < sb.directory_table_start,
        sb.fragment_table_start == NO_TABLE || sb.directory_table_start <= sb.fragment_table_start
            <= sb.id_table_start,
        sb.export_table_start == NO_TABLE || sb.directory_table_start <= sb.export_table_start
            <= sb.id_table_start,
        sb.xattr_id_table_start == NO_TABLE || sb.id_table_start <= sb.xattr_id_table_start
            < device_size,
{
    let s = sb.table_starts();
    assert(s[0] == sb.directory_table_start && s[1] == sb.fragment_table_start && s[2]
        == sb.export_table_start && s[3] == sb.id_table_start && s[4] == sb.xattr_id_table_start);
}

/// The directory table ends at the nearest of the fragment, export, id and
/// xattr tables and the end of the filesystem that comes behind its start;
/// tables that are missing do not count.
pub proof fn the_next_table_ends_the_directories(sb: Superblock, t: u64)
    ensures
        sb.ends_directory_table(t) <==> t > sb.directory_table_start && t != 0xFFFF_FFFF_FFFF_FFFF
            && seq![
            sb.fragment_table_start,
            sb.export_table_start,
            sb.id_table_start,
            sb.xattr_id_table_start,
            sb.bytes_used,
        ].contains(t),
{
    let ends = seq![
        sb.fragment_table_start,
        sb.export_table_start,
        sb.id_table_start,
        sb.xattr_id_table_start,
        sb.bytes_used,
    ];
    assert(ends[0] == sb.fragment_table_start && ends[1] == sb.export_table_start && ends[2]
        == sb.id_table_start && ends[3] == sb.xattr_id_table_start && ends[4] == sb.bytes_used);
}

} // verus!
