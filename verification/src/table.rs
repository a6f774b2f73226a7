//! Indirect lookup tables: ids, fragments and the export table.
//!
//! At the start of such a table stands an array of little-endian `u64`, one
//! for each metadata block that holds the table's entries: the absolute
//! offset of that block. The entries are what the blocks hold, joined.

use std::sync::Arc;

use vstd::prelude::*;

use crate::bytes::{get_le32, get_le64};
use crate::cache::CacheState;
use crate::device::BlockRead;
use crate::error::{Error, Result};
use crate::metablock::{read_block, read_block_uncached, MetaCache};
use crate::superblock::{Superblock, METADATA_SIZE};

verus! {

/// The start of a table that an image does not have.
pub const NO_TABLE: u64 = 0xFFFF_FFFF_FFFF_FFFF;

/// Set in a size word where the data block is stored uncompressed. The same
/// bit as [`DATA_UNCOMPRESSED_BIT`], under the format's own name for it.
pub const DATA_COMPRESSED_BIT: u32 = 0x100_0000;

/// Set in a size word where the data block is stored uncompressed.
pub const DATA_UNCOMPRESSED_BIT: u32 = 0x100_0000;

/// The bits of a size word that hold the size on disk.
pub const DATA_SIZE_MASK: u32 = 0xFF_FFFF;

/// The size on disk that the size word `raw` holds: its low 24 bits.
pub open spec fn on_disk_size(raw: u32) -> u32 {
    raw % DATA_UNCOMPRESSED_BIT
}

/// Whether the size word `raw` is that of a compressed block: bit 24 clear.
pub open spec fn is_compressed(raw: u32) -> bool {
    (raw / DATA_UNCOMPRESSED_BIT) % 2 == 0
}

/// The size of a data block on disk, from its size word.
pub fn data_on_disk_size(raw: u32) -> (r: u32)
    ensures
        r == on_disk_size(raw),
        r == raw & DATA_SIZE_MASK,
{
    assert(raw & 0xFF_FFFF == raw % 0x100_0000) by (bit_vector);
    raw & DATA_SIZE_MASK
}

/// Whether a data block is compressed, from its size word.
pub fn data_is_compressed(raw: u32) -> (r: bool)
    ensures
        r == is_compressed(raw),
        r == (raw & DATA_UNCOMPRESSED_BIT == 0),
{
    assert((raw & 0x100_0000 == 0) == ((raw / 0x100_0000) % 2 == 0)) by (bit_vector);
    raw & DATA_UNCOMPRESSED_BIT == 0
}

/// Where a fragment block stands, and its size word.
#[derive(Debug, Clone, Copy)]
pub struct FragmentEntry {
    pub start: u64,
    pub size: u32,
}

// ---- the pointer array ----

/// How many metadata blocks hold `total` bytes of entries.
pub open spec fn blocks_for(total: nat) -> nat {
    (total + METADATA_SIZE - 1) as nat / METADATA_SIZE as nat
}

/// How many bytes there are from `start` to the end of the filesystem.
pub open spec fn room_from(image: Seq<u8>, sb: Superblock, start: nat) -> nat {
    let end = if sb.bytes_used < image.len() {
        sb.bytes_used as nat
    } else {
        image.len()
    };
    if start < end {
        (end - start) as nat
    } else {
        0
    }
}

/// The pointer array of `blocks` blocks at `start`. It has to fit in memory
/// and before the end of the filesystem, or it is refused in the words of
/// `overflows` or `no_room` before anything is read.
pub open spec fn pointers_at(
    image: Seq<u8>,
    sb: Superblock,
    start: nat,
    blocks: nat,
    overflows: &'static str,
    no_room: &'static str,
) -> Result<Seq<u8>> {
    if 8 * blocks > usize::MAX {
        Err(Error::BadMetadata(overflows))
    } else if 8 * blocks > room_from(image, sb, start) {
        Err(Error::BadMetadata(no_room))
    } else {
        match crate::device::served(image, start, 8 * blocks) {
            Err(e) => Err(Error::Block(e)),
            Ok(b) => Ok(b),
        }
    }
}

/// Whether the pointer array of `blocks` blocks at `start` is read at all.
pub open spec fn pointers_are_read(
    image: Seq<u8>,
    sb: Superblock,
    start: nat,
    blocks: nat,
) -> bool {
    8 * blocks <= usize::MAX && 8 * blocks <= room_from(image, sb, start)
}

fn read_pointers<R: BlockRead>(
    dev: &R,
    sb: &Superblock,
    start: u64,
    total: u64,
    overflows: &'static str,
    no_room: &'static str,
) -> (r: Result<Vec<u8>>)
    ensures
        crate::error::outcome(
            dev.dependable() || !pointers_are_read(
                dev.image(),
                *sb,
                start as nat,
                blocks_for(total as nat),
            ),
            crate::error::bytes_of(r),
            pointers_at(
                dev.image(),
                *sb,
                start as nat,
                blocks_for(total as nat),
                overflows,
                no_room,
            ),
        ),
        r matches Ok(b) ==> b@.len() == 8 * blocks_for(total as nat),
{
    let whole: u64 = total / METADATA_SIZE as u64;
    let n_blocks: u64 = if total % METADATA_SIZE as u64 == 0 {
        whole
    } else {
        whole + 1
    };
    let array_bytes: u64 = n_blocks * 8;
    if array_bytes > usize::MAX as u64 {
        return Err(Error::BadMetadata(overflows));
    }
    let size: u64 = dev.size_bytes();
    let end: u64 = if sb.bytes_used < size {
        sb.bytes_used
    } else {
        size
    };
    if array_bytes > end.saturating_sub(start) {
        return Err(Error::BadMetadata(no_room));
    }
    match dev.read_at(start, array_bytes as usize) {
        Ok(b) => Ok(b),
        Err(e) => Err(Error::Block(e)),
    }
}

/// What the first `n` blocks that `pointers` names hold, joined.
pub open spec fn joined(image: Seq<u8>, compression_id: u16, pointers: Seq<u8>, n: nat) -> Result<
    Seq<u8>,
>
    decreases n,
{
    if n == 0 {
        Ok(Seq::empty())
    } else {
        match joined(image, compression_id, pointers, (n - 1) as nat) {
            Err(e) => Err(e),
            Ok(before) => match crate::metablock::block_at(
                image,
                compression_id,
                crate::bytes::le64(pointers, 8 * (n - 1)) as nat,
            ) {
                Err(e) => Err(e),
                Ok((bytes, _)) => Ok(before + bytes),
            },
        }
    }
}

proof fn lemma_joined_error_stays(
    image: Seq<u8>,
    compression_id: u16,
    pointers: Seq<u8>,
    m: nat,
    n: nat,
)
    requires
        m <= n,
        joined(image, compression_id, pointers, m) is Err,
    ensures
        joined(image, compression_id, pointers, n) == joined(image, compression_id, pointers, m),
    decreases n,
{
    if m < n {
        lemma_joined_error_stays(image, compression_id, pointers, m, (n - 1) as nat);
    }
}

/// The entries of the table at `start`, `total` bytes of them at least.
pub open spec fn entries_at(image: Seq<u8>, sb: Superblock, start: nat, total: nat) -> Result<
    Seq<u8>,
> {
    if total == 0 {
        Ok(Seq::empty())
    } else {
        match pointers_at(
            image,
            sb,
            start,
            blocks_for(total),
            "indirect table pointer array overflows",
            "indirect table declares more blocks than it has room for",
        ) {
            Err(e) => Err(e),
            Ok(pointers) => match joined(
                image,
                sb.compression_id,
                pointers,
                blocks_for(total),
            ) {
                Err(e) => Err(e),
                Ok(bytes) => if bytes.len() < total {
                    Err(Error::BadMetadata("indirect table shorter than expected"))
                } else {
                    Ok(bytes)
                },
            },
        }
    }
}

/// Whether the device is read for the entries of the table at `start`.
pub open spec fn entries_are_read(image: Seq<u8>, sb: Superblock, start: nat, total: nat) -> bool {
    total > 0 && pointers_are_read(image, sb, start, blocks_for(total))
}

/// Reads an indirect table and joins its blocks. `total_bytes` is the size
/// of its entries.
///
/// The blocks are read past the cache: a table is read once, and would only
/// push out blocks that are read over and over.
pub fn read_indirect_table<R: BlockRead>(
    dev: &R,
    sb: &Superblock,
    table_start: u64,
    total_bytes: u64,
) -> (r: Result<Vec<u8>>)
    ensures
        crate::error::outcome(
            dev.dependable() || !entries_are_read(
                dev.image(),
                *sb,
                table_start as nat,
                total_bytes as nat,
            ),
            crate::error::bytes_of(r),
            entries_at(dev.image(), *sb, table_start as nat, total_bytes as nat),
        ),
        r matches Ok(b) ==> b@.len() >= total_bytes,
{
    let mut out: Vec<u8> = Vec::new();
    if total_bytes == 0 {
        assert(out@ =~= Seq::empty());
        return Ok(out);
    }
    let pointers: Vec<u8> = read_pointers(
        dev,
        sb,
        table_start,
        total_bytes,
        "indirect table pointer array overflows",
        "indirect table declares more blocks than it has room for",
    )?;
    let n: usize = pointers.len() / 8;
    let ghost blocks = blocks_for(total_bytes as nat);
    let mut i: usize = 0;
    assert(out@ =~= Seq::empty());
    while i < n
        invariant
            i <= n,
            n == blocks,
            blocks == blocks_for(total_bytes as nat),
            total_bytes > 0,
            pointers.len() == 8 * n,
            pointers_at(
                dev.image(),
                *sb,
                table_start as nat,
                blocks,
                "indirect table pointer array overflows",
                "indirect table declares more blocks than it has room for",
            ) == Ok::<Seq<u8>, Error>(pointers@),
            joined(dev.image(), sb.compression_id, pointers@, i as nat) == Ok::<Seq<u8>, Error>(
                out@,
            ),
        decreases n - i,
    {
        let p: u64 = get_le64(pointers.as_slice(), 8 * i);
        match read_block_uncached(dev, sb, p) {
            Ok((mut block, _)) => out.append(&mut block),
            Err(e) => {
                proof {
                    if joined(dev.image(), sb.compression_id, pointers@, (i + 1) as nat) is Err {
                        lemma_joined_error_stays(
                            dev.image(),
                            sb.compression_id,
                            pointers@,
                            (i + 1) as nat,
                            blocks,
                        );
                    }
                }
                return Err(e);
            },
        }
        i = i + 1;
    }
    if (out.len() as u64) < total_bytes {
        return Err(Error::BadMetadata("indirect table shorter than expected"));
    }
    Ok(out)
}

// ---- the id table ----

/// The uid/gid table of an image.
pub open spec fn id_table(image: Seq<u8>, sb: Superblock) -> Result<Seq<u32>> {
    match entries_at(image, sb, sb.id_table_start as nat, 4 * sb.id_count as nat) {
        Err(e) => Err(e),
        Ok(bytes) => Ok(
            Seq::new(sb.id_count as nat, |i: int| crate::bytes::le32(bytes, 4 * i)),
        ),
    }
}

/// Reads the uid/gid table: `id_count` ids, which the indices in an inode
/// stand for.
pub fn read_id_table<R: BlockRead>(dev: &R, sb: &Superblock) -> (r: Result<Vec<u32>>)
    ensures
        ({
            let want = id_table(dev.image(), *sb);
            match r {
                Ok(ids) => want == Ok::<Seq<u32>, Error>(ids@),
                Err(e) => want == Err::<Seq<u32>, Error>(e) || (!dev.dependable() && e is Block
                    && entries_are_read(
                    dev.image(),
                    *sb,
                    sb.id_table_start as nat,
                    4 * sb.id_count as nat,
                )),
            }
        }),
{
    let n: usize = sb.id_count as usize;
    let bytes: Vec<u8> = read_indirect_table(dev, sb, sb.id_table_start, 4 * sb.id_count as u64)?;
    let mut ids: Vec<u32> = Vec::with_capacity(n);
    let mut i: usize = 0;
    while i < n
        invariant
            i <= n,
            n == sb.id_count,
            bytes.len() >= 4 * n,
            ids@ == Seq::new(i as nat, |k: int| crate::bytes::le32(bytes@, 4 * k)),
        decreases n - i,
    {
        ids.push(get_le32(bytes.as_slice(), 4 * i));
        assert(ids@ =~= Seq::new((i + 1) as nat, |k: int| crate::bytes::le32(bytes@, 4 * k)));
        i = i + 1;
    }
    Ok(ids)
}

// ---- the fragment table ----

/// The fragment entry at index `i`: 16 bytes, the last four unused.
pub open spec fn fragment_in(bytes: Seq<u8>, i: int) -> FragmentEntry {
    FragmentEntry {
        start: crate::bytes::le64(bytes, 16 * i),
        size: crate::bytes::le32(bytes, 16 * i + 8),
    }
}

/// The fragment table of an image.
pub open spec fn fragment_table(image: Seq<u8>, sb: Superblock) -> Result<Seq<FragmentEntry>> {
    match entries_at(
        image,
        sb,
        sb.fragment_table_start as nat,
        16 * sb.fragment_entry_count as nat,
    ) {
        Err(e) => Err(e),
        Ok(bytes) => Ok(
            Seq::new(sb.fragment_entry_count as nat, |i: int| fragment_in(bytes, i)),
        ),
    }
}

/// Reads the fragment table, which a file's `fragment_index` indexes.
pub fn read_fragment_table<R: BlockRead>(dev: &R, sb: &Superblock) -> (r: Result<
    Vec<FragmentEntry>,
>)
    ensures
        ({
            let want = fragment_table(dev.image(), *sb);
            match r {
                Ok(frags) => want == Ok::<Seq<FragmentEntry>, Error>(frags@),
                Err(e) => want == Err::<Seq<FragmentEntry>, Error>(e) || (!dev.dependable()
                    && e is Block && entries_are_read(
                    dev.image(),
                    *sb,
                    sb.fragment_table_start as nat,
                    16 * sb.fragment_entry_count as nat,
                )),
            }
        }),
{
    let n: u32 = sb.fragment_entry_count;
    let bytes: Vec<u8> = read_indirect_table(dev, sb, sb.fragment_table_start, 16 * n as u64)?;
    let mut frags: Vec<FragmentEntry> = Vec::new();
    let mut i: u32 = 0;
    while i < n
        invariant
            i <= n,
            n == sb.fragment_entry_count,
            bytes.len() >= 16 * n,
            frags@ == Seq::new(i as nat, |k: int| fragment_in(bytes@, k)),
        decreases n - i,
    {
        let o: usize = 16 * i as usize;
        let start: u64 = get_le64(bytes.as_slice(), o);
        let size: u32 = get_le32(bytes.as_slice(), o + 8);
        frags.push(FragmentEntry { start, size });
        assert(frags@ =~= Seq::new((i + 1) as nat, |k: int| fragment_in(bytes@, k)));
        i = i + 1;
    }
    Ok(frags)
}

// ---- the export table ----

/// The size of an export entry: one inode reference.
pub const EXPORT_ENTRY_SIZE: usize = 8;

/// How many export entries a metadata block holds. They fill it evenly, so
/// none runs over the end of a block.
pub const EXPORTS_PER_BLOCK: u32 = 1024;

/// The export table: from an inode number back to the inode.
///
/// Entry `n - 1` is the reference of inode number `n`: inode numbers start
/// at 1. The table has one entry for every inode of the image, so only the
/// offsets of its blocks are kept, and a lookup reads the one block it needs.
#[derive(Debug, Clone)]
pub struct ExportTable {
    block_starts: Vec<u64>,
    inode_count: u32,
}

/// What an [`ExportTable`] holds.
#[verifier::ext_equal]
pub struct Exports {
    /// The absolute offset of each metadata block of entries.
    pub block_starts: Seq<u64>,
    /// How many inodes the table covers.
    pub inode_count: u32,
}

impl View for ExportTable {
    type V = Exports;

    closed spec fn view(&self) -> Exports {
        Exports { block_starts: self.block_starts@, inode_count: self.inode_count }
    }
}

/// The reference that the export table holds for an inode number.
pub open spec fn exported(
    image: Seq<u8>,
    compression_id: u16,
    exports: Exports,
    inode_number: u32,
) -> Result<u64> {
    let block = (inode_number - 1) / EXPORTS_PER_BLOCK as int;
    let within = EXPORT_ENTRY_SIZE * ((inode_number - 1) % EXPORTS_PER_BLOCK as int);
    if inode_number == 0 || inode_number > exports.inode_count {
        Err(Error::NotFound)
    } else if block >= exports.block_starts.len() {
        Err(Error::BadMetadata("export table is shorter than it claims"))
    } else {
        match crate::metablock::block_at(
            image,
            compression_id,
            exports.block_starts[block] as nat,
        ) {
            Err(e) => Err(e),
            Ok((bytes, _)) => if within + EXPORT_ENTRY_SIZE > bytes.len() {
                Err(Error::BadMetadata("export table entry runs past its metadata block"))
            } else {
                Ok(crate::bytes::le64(bytes, within))
            },
        }
    }
}

/// Whether a block is read to look `inode_number` up.
pub open spec fn exported_is_read(exports: Exports, inode_number: u32) -> bool {
    let block = (inode_number - 1) / EXPORTS_PER_BLOCK as int;
    0 < inode_number <= exports.inode_count && block < exports.block_starts.len()
}

/// The cache after `inode_number` was looked up through it.
pub open spec fn exported_cache(
    image: Seq<u8>,
    compression_id: u16,
    exports: Exports,
    inode_number: u32,
    cache: CacheState,
) -> CacheState {
    if exported_is_read(exports, inode_number) {
        crate::metablock::cache_after_block(
            image,
            compression_id,
            exports.block_starts[(inode_number - 1) / EXPORTS_PER_BLOCK as int] as nat,
            cache,
        )
    } else {
        cache
    }
}

impl ExportTable {
    /// How many inodes the table covers.
    pub fn inode_count(&self) -> (r: u32)
        ensures
            r == self@.inode_count,
    {
        self.inode_count
    }

    /// The reference for `inode_number`; [`Error::NotFound`] where the number
    /// is zero or past the last inode.
    pub fn lookup<R: BlockRead>(
        &self,
        dev: &R,
        sb: &Superblock,
        inode_number: u32,
        cache: &mut MetaCache,
    ) -> (r: Result<u64>)
        requires
            old(cache).fits(dev.image(), sb.compression_id),
        ensures
            crate::error::outcome(
                dev.dependable() || !exported_is_read(self@, inode_number),
                r,
                exported(dev.image(), sb.compression_id, self@, inode_number),
            ),
            crate::error::settled(dev.dependable(), r) ==> final(cache)@ == exported_cache(
                dev.image(),
                sb.compression_id,
                self@,
                inode_number,
                old(cache)@,
            ),
            final(cache).fits(dev.image(), sb.compression_id),
            final(cache)@.capacity == old(cache)@.capacity,
    {
        if inode_number == 0 || inode_number > self.inode_count {
            return Err(Error::NotFound);
        }
        let index: u32 = inode_number - 1;
        let block: usize = (index / EXPORTS_PER_BLOCK) as usize;
        let within: usize = EXPORT_ENTRY_SIZE * (index % EXPORTS_PER_BLOCK) as usize;
        if block >= self.block_starts.len() {
            return Err(Error::BadMetadata("export table is shorter than it claims"));
        }
        let (data, _): (Arc<Vec<u8>>, u64) = read_block(dev, sb, self.block_starts[block], cache)?;
        if within + EXPORT_ENTRY_SIZE > data.len() {
            return Err(Error::BadMetadata("export table entry runs past its metadata block"));
        }
        Ok(get_le64(data.as_slice(), within))
    }
}

/// The export table of an image, if it has one.
pub open spec fn export_table(image: Seq<u8>, sb: Superblock) -> Result<Option<Exports>> {
    let blocks = blocks_for(8 * sb.inode_count as nat);
    if sb.export_table_start == NO_TABLE {
        Ok(None)
    } else if sb.inode_count == 0 {
        Ok(Some(Exports { block_starts: Seq::empty(), inode_count: 0 }))
    } else {
        match pointers_at(
            image,
            sb,
            sb.export_table_start as nat,
            blocks,
            "export table pointer array overflows",
            "export table declares more blocks than it has room for",
        ) {
            Err(e) => Err(e),
            Ok(pointers) => Ok(
                Some(
                    Exports {
                        block_starts: Seq::new(
                            blocks,
                            |i: int| crate::bytes::le64(pointers, 8 * i),
                        ),
                        inode_count: sb.inode_count,
                    },
                ),
            ),
        }
    }
}

/// Reads the export table's pointer array; `None` where the image was built
/// without the table, which is no error.
pub fn read_export_table<R: BlockRead>(dev: &R, sb: &Superblock) -> (r: Result<Option<ExportTable>>)
    ensures
        ({
            let want = export_table(dev.image(), *sb);
            match r {
                Ok(Some(t)) => want == Ok::<Option<Exports>, Error>(Some(t@)),
                Ok(None) => want == Ok::<Option<Exports>, Error>(None),
                Err(e) => want == Err::<Option<Exports>, Error>(e) || (!dev.dependable()
                    && e is Block && sb.export_table_start != NO_TABLE && sb.inode_count > 0
                    && pointers_are_read(
                    dev.image(),
                    *sb,
                    sb.export_table_start as nat,
                    blocks_for(8 * sb.inode_count as nat),
                )),
            }
        }),
{
    if sb.export_table_start == NO_TABLE {
        return Ok(None);
    }
    let mut block_starts: Vec<u64> = Vec::new();
    if sb.inode_count == 0 {
        assert(block_starts@ =~= Seq::empty());
        return Ok(Some(ExportTable { block_starts, inode_count: 0 }));
    }
    let pointers: Vec<u8> = read_pointers(
        dev,
        sb,
        sb.export_table_start,
        8 * sb.inode_count as u64,
        "export table pointer array overflows",
        "export table declares more blocks than it has room for",
    )?;
    let n: usize = pointers.len() / 8;
    let mut i: usize = 0;
    while i < n
        invariant
            i <= n,
            pointers.len() == 8 * n,
            block_starts@ == Seq::new(i as nat, |k: int| crate::bytes::le64(pointers@, 8 * k)),
        decreases n - i,
    {
        block_starts.push(get_le64(pointers.as_slice(), 8 * i));
        assert(block_starts@ =~= Seq::new(
            (i + 1) as nat,
            |k: int| crate::bytes::le64(pointers@, 8 * k),
        ));
        i = i + 1;
    }
    Ok(Some(ExportTable { block_starts, inode_count: sb.inode_count }))
}

/// An export table whose pointers were read covers every inode number: a
/// lookup never runs off the list of its blocks.
pub proof fn export_table_covers_its_inodes(image: Seq<u8>, sb: Superblock, inode_number: u32)
    requires
        export_table(image, sb) matches Ok(Some(_)),
        0 < inode_number <= sb.inode_count,
    ensures
        export_table(image, sb) matches Ok(Some(exports)) && exports.inode_count == sb.inode_count
            && exports.block_starts.len() > (inode_number - 1) / EXPORTS_PER_BLOCK as int,
{
}

} // verus!
