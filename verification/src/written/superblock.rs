//! The superblock, as it is written, and the images that mount.

use vstd::prelude::*;

use crate::error::Error;
use crate::fs::Mount;
use crate::superblock::Superblock;
use super::numbers::{number16_is_read_back, number32_is_read_back, number64_is_read_back};

verus! {

broadcast use {
    super::numbers::lemma_len16,
    super::numbers::lemma_len32,
    super::numbers::lemma_len64,
};

/// Two to the power of `n`.
pub open spec fn doubled(n: nat) -> nat
    decreases n,
{
    if n == 0 {
        1
    } else {
        2 * doubled((n - 1) as nat)
    }
}

/// Whether the fields of `sb` stand at the start of `b`, each at its place.
pub open spec fn is_superblock(b: Seq<u8>, sb: Superblock) -> bool {
    &&& super::numbers::holds32(b, 0, sb.magic)
    &&& super::numbers::holds32(b, 4, sb.inode_count)
    &&& super::numbers::holds32(b, 8, sb.modification_time)
    &&& super::numbers::holds32(b, 12, sb.block_size)
    &&& super::numbers::holds32(b, 16, sb.fragment_entry_count)
    &&& super::numbers::holds16(b, 20, sb.compression_id)
    &&& super::numbers::holds16(b, 22, sb.block_log)
    &&& super::numbers::holds16(b, 24, sb.flags)
    &&& super::numbers::holds16(b, 26, sb.id_count)
    &&& super::numbers::holds16(b, 28, sb.version_major)
    &&& super::numbers::holds16(b, 30, sb.version_minor)
    &&& super::numbers::holds64(b, 32, sb.root_inode_ref)
    &&& super::numbers::holds64(b, 40, sb.bytes_used)
    &&& super::numbers::holds64(b, 48, sb.id_table_start)
    &&& super::numbers::holds64(b, 56, sb.xattr_id_table_start)
    &&& super::numbers::holds64(b, 64, sb.inode_table_start)
    &&& super::numbers::holds64(b, 72, sb.directory_table_start)
    &&& super::numbers::holds64(b, 80, sb.fragment_table_start)
    &&& super::numbers::holds64(b, 88, sb.export_table_start)
}

/// Whether a writer of SquashFS 4.0 may write `sb`: with the magic "hsqs", and
/// a block size from 4 KiB to 1 MiB that is the power of two its logarithm
/// says.
pub open spec fn is_sound(sb: Superblock) -> bool {
    &&& super::numbers::bytes32(sb.magic) == seq![0x68u8, 0x73, 0x71, 0x73]
    &&& sb.version_major == 4
    &&& sb.version_minor == 0
    &&& 12 <= sb.block_log <= 20
    &&& sb.block_size == doubled(sb.block_log as nat)
}

proof fn lemma_block_size(log: u16)
    requires
        12 <= log <= 20,
    ensures
        1u32 << log == doubled(log as nat),
{
    crate::superblock::lemma_block_sizes(log);
    reveal_with_fuel(doubled, 21);
}

/// A buffer is accepted as a superblock exactly where it holds one that a
/// writer may write, of every block size there is, and each field is then the
/// number that stands at its place.
pub proof fn superblock_is_read_back(b: Seq<u8>, sb: Superblock)
    ensures
        crate::superblock::parsed(b) == Ok::<Superblock, Error>(sb) <==> is_superblock(b, sb)
            && is_sound(sb),
        crate::superblock::superblock_of(b) == Ok::<Superblock, Error>(sb) <==> is_superblock(b, sb)
            && is_sound(sb),
{
    if b.len() >= 96 {
        lemma_fields(b, sb);
        assert(crate::superblock::parsed(b.subrange(0, 96)) == crate::superblock::parsed(b));
    } else {
        number64_is_read_back(b, 88, sb.export_table_start);
    }
}

#[verifier::rlimit(60)]
proof fn lemma_fields(b: Seq<u8>, sb: Superblock)
    requires
        b.len() >= 96,
    ensures
        crate::superblock::parsed(b) == Ok::<Superblock, Error>(sb) <==> is_superblock(b, sb)
            && is_sound(sb),
{
    number32_is_read_back(b, 0, sb.magic);
    number32_is_read_back(b, 4, sb.inode_count);
    number32_is_read_back(b, 8, sb.modification_time);
    number32_is_read_back(b, 12, sb.block_size);
    number32_is_read_back(b, 16, sb.fragment_entry_count);
    number16_is_read_back(b, 20, sb.compression_id);
    number16_is_read_back(b, 22, sb.block_log);
    number16_is_read_back(b, 24, sb.flags);
    number16_is_read_back(b, 26, sb.id_count);
    number16_is_read_back(b, 28, sb.version_major);
    number16_is_read_back(b, 30, sb.version_minor);
    number64_is_read_back(b, 32, sb.root_inode_ref);
    number64_is_read_back(b, 40, sb.bytes_used);
    number64_is_read_back(b, 48, sb.id_table_start);
    number64_is_read_back(b, 56, sb.xattr_id_table_start);
    number64_is_read_back(b, 64, sb.inode_table_start);
    number64_is_read_back(b, 72, sb.directory_table_start);
    number64_is_read_back(b, 80, sb.fragment_table_start);
    number64_is_read_back(b, 88, sb.export_table_start);
    if 12 <= sb.block_log <= 20 {
        lemma_block_size(sb.block_log);
    }
    lemma_magic(sb.magic);
}

proof fn lemma_magic(v: u32)
    ensures
        super::numbers::bytes32(v) == seq![0x68u8, 0x73, 0x71, 0x73] <==> v == 0x7371_7368,
{
    reveal(super::numbers::bytes32);
    let b = super::numbers::bytes32(v);
    let magic = seq![0x68u8, 0x73, 0x71, 0x73];
    assert(super::numbers::bytes32(0x7371_7368) =~= magic);
    if b == magic {
        assert(b[0] == magic[0] && b[1] == magic[1] && b[2] == magic[2] && b[3] == magic[3]);
    }
}

/// A buffer that is too short, does not start with "hsqs", is of another
/// version or has no block size there is, is refused, and for that reason.
pub proof fn other_buffers_are_refused(b: Seq<u8>)
    ensures
        b.len() < 96 ==> crate::superblock::parsed(b) matches Err(Error::BadSuperblock(_)),
        b.len() >= 96 && b.take(4) != seq![0x68u8, 0x73, 0x71, 0x73] ==> crate::superblock::parsed(
            b,
        ) == Err::<Superblock, Error>(Error::NotSquashfs),
        b.len() >= 96 && b.take(4) == seq![0x68u8, 0x73, 0x71, 0x73] ==> !(
        crate::superblock::parsed(b) matches Err(e) && !(e matches Error::BadSuperblock(_))),
{
    if b.len() >= 96 {
        number32_is_read_back(b, 0, 0x7371_7368);
        reveal(super::numbers::holds32);
        lemma_magic(0x7371_7368);
        assert(b.take(4) =~= b.subrange(0, 4));
    }
}

/// Whether a table that may be missing starts inside the image where it is
/// there.
pub open spec fn missing_or_inside(sb: Superblock, t: u64) -> bool {
    t == u64::MAX || 96 <= t < sb.bytes_used
}

/// Whether two tables that may be missing stand in this order.
pub open spec fn before_if_there(a: u64, b: u64) -> bool {
    a == u64::MAX || b == u64::MAX || a <= b
}

/// Whether a writer may put `sb` on a device of `size` bytes: all tables
/// behind the superblock and inside the image, the image inside the device,
/// the tables in their order, and the root inode in the inode table.
pub open spec fn is_laid_out(sb: Superblock, size: u64) -> bool {
    &&& sb.bytes_used <= size
    &&& 96 <= sb.inode_table_start < sb.directory_table_start < sb.bytes_used
    &&& 96 <= sb.id_table_start < sb.bytes_used
    &&& missing_or_inside(sb, sb.fragment_table_start)
    &&& missing_or_inside(sb, sb.export_table_start)
    &&& missing_or_inside(sb, sb.xattr_id_table_start)
    &&& before_if_there(sb.directory_table_start, sb.fragment_table_start)
    &&& before_if_there(sb.directory_table_start, sb.export_table_start)
    &&& sb.directory_table_start <= sb.id_table_start
    &&& before_if_there(sb.directory_table_start, sb.xattr_id_table_start)
    &&& before_if_there(sb.fragment_table_start, sb.export_table_start)
    &&& before_if_there(sb.fragment_table_start, sb.id_table_start)
    &&& before_if_there(sb.fragment_table_start, sb.xattr_id_table_start)
    &&& before_if_there(sb.export_table_start, sb.id_table_start)
    &&& before_if_there(sb.export_table_start, sb.xattr_id_table_start)
    &&& before_if_there(sb.id_table_start, sb.xattr_id_table_start)
    &&& sb.root_inode_ref / 0x1_0000 < sb.directory_table_start - sb.inode_table_start
}

/// A superblock is accepted for a device exactly where a writer may have put
/// it there, and is else refused as one.
pub proof fn laid_out_superblocks_are_accepted(sb: Superblock, size: u64)
    ensures
        sb.placed(size) is Ok <==> is_laid_out(sb, size),
        !is_laid_out(sb, size) ==> sb.placed(size) matches Err(Error::BadSuperblock(_)),
{
    let s = sb.table_starts();
    assert(s[0] == sb.directory_table_start && s[1] == sb.fragment_table_start && s[2]
        == sb.export_table_start && s[3] == sb.id_table_start && s[4] == sb.xattr_id_table_start);
    assert(s.len() == 5);
    if is_laid_out(sb, size) {
        assert forall|i: int, j: int|
            0 <= i < j < 5 && s[i] != crate::table::NO_TABLE && s[j]
                != crate::table::NO_TABLE implies #[trigger] s[i] <= #[trigger] s[j] by {
            assert(i == 0 || i == 1 || i == 2 || i == 3);
            assert(j == 1 || j == 2 || j == 3 || j == 4);
        }
    }
}

/// An image mounts exactly where its superblock is one, fits it and names a
/// compressor there is, and all four of its tables can be read; and the mount
/// has all of them.
pub proof fn image_mounts(image: Seq<u8>, m: Mount)
    requires
        image.len() <= u64::MAX,
    ensures
        crate::fs::mounted(image) == Ok::<Mount, Error>(m) <==> {
            &&& is_superblock(image, m.sb) && is_sound(m.sb)
            &&& is_laid_out(m.sb, image.len() as u64)
            &&& crate::decompress::compressor_of(m.sb.compression_id) == Ok::<
                crate::decompress::Compressor,
                Error,
            >(m.comp)
            &&& crate::table::id_table(image, m.sb) == Ok::<Seq<u32>, Error>(m.ids)
            &&& crate::table::fragment_table(image, m.sb) == Ok::<
                Seq<crate::table::FragmentEntry>,
                Error,
            >(m.fragments)
            &&& crate::xattr::xattr_table(image, m.sb) == Ok::<
                Option<crate::xattr::XattrIds>,
                Error,
            >(m.xattrs)
            &&& crate::table::export_table(image, m.sb) == Ok::<
                Option<crate::table::Exports>,
                Error,
            >(m.exports)
        },
{
    superblock_is_read_back(image, m.sb);
    laid_out_superblocks_are_accepted(m.sb, image.len() as u64);
}

} // verus!
