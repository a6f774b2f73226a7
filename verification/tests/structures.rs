//! Superblocks, inodes, listings, errors and references, from their bytes.

use fs_squashfs::bytes::{get_le16, get_le32, get_le64};
use fs_squashfs::decompress::Compressor;
use fs_squashfs::dir::{parse_listing, MAX_ENTRIES_PER_HEADER, SQUASHFS_NAME_LEN};
use fs_squashfs::error::{
    decimal, BlockError, Error, EINVAL, EIO, ENOENT, ENOTDIR, ENOTSUP, ERANGE,
};
use fs_squashfs::inode::{
    block_count, FileType, Inode, TYPE_BASIC_BLKDEV, TYPE_BASIC_CHRDEV, TYPE_BASIC_DIR,
    TYPE_BASIC_FIFO, TYPE_BASIC_FILE, TYPE_BASIC_SOCKET, TYPE_BASIC_SYMLINK, TYPE_EXT_BLKDEV,
    TYPE_EXT_CHRDEV, TYPE_EXT_DIR, TYPE_EXT_FIFO, TYPE_EXT_FILE, TYPE_EXT_SOCKET,
    TYPE_EXT_SYMLINK,
};
use fs_squashfs::metablock::MetadataRef;
use fs_squashfs::superblock::{
    Superblock, SQUASHFS_INVALID_FRAG, SQUASHFS_MAGIC, SUPERBLOCK_SIZE,
};
use fs_squashfs::table::{
    data_is_compressed, data_on_disk_size, DATA_COMPRESSED_BIT, EXPORT_ENTRY_SIZE, NO_TABLE,
};
use fs_squashfs::xattr::{
    ID_ENTRY_SIZE, MAX_NAME_LEN, MAX_VALUE_LEN, SQUASHFS_INVALID_XATTR, XATTR_VALUE_OOL,
};

/// Build a minimal valid 96-byte superblock.
fn synth_sb(block_log: u16, root_ref: u64, inode_table_start: u64) -> Vec<u8> {
    let mut b = vec![0u8; SUPERBLOCK_SIZE];
    b[0x00..0x04].copy_from_slice(&SQUASHFS_MAGIC.to_le_bytes());
    b[0x0C..0x10].copy_from_slice(&(1u32 << block_log).to_le_bytes());
    b[0x14..0x16].copy_from_slice(&1u16.to_le_bytes()); // gzip
    b[0x16..0x18].copy_from_slice(&block_log.to_le_bytes());
    b[0x1C..0x1E].copy_from_slice(&4u16.to_le_bytes()); // version_major
    b[0x20..0x28].copy_from_slice(&root_ref.to_le_bytes());
    b[0x40..0x48].copy_from_slice(&inode_table_start.to_le_bytes());
    b
}

// ---- superblock ----

#[test]
fn parse_minimal() {
    let buf = synth_sb(17, 0, 96);
    let sb = Superblock::parse(&buf).unwrap();
    assert_eq!(sb.magic, SQUASHFS_MAGIC);
    assert_eq!(sb.block_size, 1 << 17);
    assert_eq!(sb.block_log, 17);
    assert_eq!(sb.version_major, 4);
    assert_eq!(sb.compressor().unwrap(), Compressor::Gzip);
    assert_eq!(sb.inode_table_start, 96);
}

#[test]
fn rejects_bad_magic() {
    let mut buf = synth_sb(17, 0, 96);
    buf[0..4].copy_from_slice(&[0xDE, 0xAD, 0xBE, 0xEF]);
    assert!(matches!(Superblock::parse(&buf), Err(Error::NotSquashfs)));
}

#[test]
fn rejects_block_size_mismatch() {
    let mut buf = synth_sb(17, 0, 96);
    buf[0x0C..0x10].copy_from_slice(&4096u32.to_le_bytes()); // != 1<<17
    assert!(matches!(
        Superblock::parse(&buf),
        Err(Error::BadSuperblock(_))
    ));
}

#[test]
fn rejects_non_v4() {
    let mut buf = synth_sb(17, 0, 96);
    buf[0x1C..0x1E].copy_from_slice(&3u16.to_le_bytes());
    assert!(matches!(
        Superblock::parse(&buf),
        Err(Error::BadSuperblock(_))
    ));
}

#[test]
fn rejects_short_buffer() {
    assert!(matches!(
        Superblock::parse(&[0u8; 16]),
        Err(Error::BadSuperblock(_))
    ));
}

/// Every field is read from its own place.
#[test]
fn every_superblock_field_has_its_place() {
    let mut b = synth_sb(12, 0x1122_3344_5566_7788, 0x40);
    b[0x04..0x08].copy_from_slice(&11u32.to_le_bytes());
    b[0x08..0x0C].copy_from_slice(&12u32.to_le_bytes());
    b[0x10..0x14].copy_from_slice(&13u32.to_le_bytes());
    b[0x14..0x16].copy_from_slice(&6u16.to_le_bytes());
    b[0x18..0x1A].copy_from_slice(&14u16.to_le_bytes());
    b[0x1A..0x1C].copy_from_slice(&15u16.to_le_bytes());
    b[0x28..0x30].copy_from_slice(&16u64.to_le_bytes());
    b[0x30..0x38].copy_from_slice(&17u64.to_le_bytes());
    b[0x38..0x40].copy_from_slice(&18u64.to_le_bytes());
    b[0x48..0x50].copy_from_slice(&19u64.to_le_bytes());
    b[0x50..0x58].copy_from_slice(&20u64.to_le_bytes());
    b[0x58..0x60].copy_from_slice(&21u64.to_le_bytes());
    let sb = Superblock::parse(&b).unwrap();
    assert_eq!(
        (sb.inode_count, sb.modification_time, sb.fragment_entry_count),
        (11, 12, 13)
    );
    assert_eq!((sb.flags, sb.id_count, sb.version_minor), (14, 15, 0));
    assert_eq!(sb.root_inode_ref, 0x1122_3344_5566_7788);
    assert_eq!(sb.bytes_used, 16);
    assert_eq!((sb.id_table_start, sb.xattr_id_table_start), (17, 18));
    assert_eq!((sb.inode_table_start, sb.directory_table_start), (0x40, 19));
    assert_eq!((sb.fragment_table_start, sb.export_table_start), (20, 21));
    assert_eq!(sb.compressor().unwrap(), Compressor::Zstd);
}

/// A superblock whose tables stand in order inside 4000 bytes.
fn placed_sb() -> Superblock {
    let mut sb = Superblock::parse(&synth_sb(12, 0, 96)).unwrap();
    sb.bytes_used = 4000;
    sb.directory_table_start = 200;
    sb.fragment_table_start = 300;
    sb.export_table_start = 400;
    sb.id_table_start = 500;
    sb.xattr_id_table_start = 600;
    sb
}

fn refusal(sb: &Superblock) -> &'static str {
    match sb.validate_against_device(4096) {
        Err(Error::BadSuperblock(why)) => why,
        other => panic!("expected a refusal, got {other:?}"),
    }
}

#[test]
fn each_misplaced_table_is_named() {
    assert!(placed_sb().validate_against_device(4096).is_ok());
    assert!(placed_sb().validate_against_device(4000).is_ok());

    let mut sb = placed_sb();
    sb.bytes_used = 4097;
    assert_eq!(refusal(&sb), "bytes_used exceeds the size of the device");

    let outside = "a table starts outside [superblock end, bytes_used)";
    let mut sb = placed_sb();
    sb.inode_table_start = 95;
    assert_eq!(refusal(&sb), outside);
    let mut sb = placed_sb();
    sb.id_table_start = NO_TABLE;
    assert_eq!(refusal(&sb), outside);
    let mut sb = placed_sb();
    sb.fragment_table_start = 4000;
    assert_eq!(refusal(&sb), outside);

    let mut sb = placed_sb();
    sb.inode_table_start = 200;
    assert_eq!(
        refusal(&sb),
        "table starts are out of order (inode table not before directory table)"
    );
    let mut sb = placed_sb();
    sb.export_table_start = 299;
    assert_eq!(refusal(&sb), "table starts are out of order");
    let mut sb = placed_sb();
    sb.root_inode_ref = 104 << 16;
    assert_eq!(
        refusal(&sb),
        "root inode reference points outside the inode table"
    );
    let mut sb = placed_sb();
    sb.root_inode_ref = u64::MAX;
    assert_eq!(
        refusal(&sb),
        "root inode reference points outside the inode table"
    );
    let mut sb = placed_sb();
    sb.root_inode_ref = (103 << 16) | 0xFFFF;
    assert!(sb.validate_against_device(4096).is_ok());
}

/// An absent table is left out of the ordering.
#[test]
fn absent_tables_do_not_count_as_out_of_order() {
    let mut sb = placed_sb();
    sb.fragment_table_start = NO_TABLE;
    sb.export_table_start = NO_TABLE;
    sb.xattr_id_table_start = NO_TABLE;
    assert!(sb.validate_against_device(4096).is_ok());
    sb.id_table_start = 199;
    assert_eq!(refusal(&sb), "table starts are out of order");
}

#[test]
fn the_directory_table_ends_at_the_next_table() {
    let mut sb = placed_sb();
    assert_eq!(sb.directory_table_end(), 300);
    sb.fragment_table_start = NO_TABLE;
    assert_eq!(sb.directory_table_end(), 400);
    sb.export_table_start = 100;
    sb.id_table_start = 150;
    sb.xattr_id_table_start = NO_TABLE;
    assert_eq!(sb.directory_table_end(), 4000);
    sb.bytes_used = 0;
    assert_eq!(sb.directory_table_end(), u64::MAX);
}

// ---- errors ----

#[test]
fn display_and_errno_cover_each_variant() {
    let cases: &[(Error, i32, &str)] = &[
        (Error::NotSquashfs, EINVAL, "magic mismatch"),
        (Error::BadSuperblock("bad version"), EINVAL, "superblock"),
        (Error::BadMetadata("short"), EIO, "metadata"),
        (Error::BadInode("short"), EIO, "inode"),
        (Error::BadDirent("short"), EIO, "directory"),
        (
            Error::UnsupportedCompression(4),
            ENOTSUP,
            "compressor id 4",
        ),
        (Error::NotFound, ENOENT, "not found"),
        (Error::NotADirectory, ENOTDIR, "not a directory"),
        (Error::OutOfRange, ERANGE, "past end"),
    ];
    for (e, want_errno, want_sub) in cases {
        assert_eq!(e.to_errno(), *want_errno, "errno for {e:?}");
        assert!(
            e.to_string().contains(want_sub),
            "display {e:?} -> {}",
            e.to_string()
        );
    }
}

#[test]
fn from_block_error_wraps() {
    let be = BlockError::ShortRead {
        offset: 1,
        want: 4,
        got: 0,
    };
    let e: Error = be.into();
    assert!(matches!(e, Error::Block(_)));
    assert_eq!(e.to_errno(), EIO);
}

/// The whole text of each error, and an errno of its own for an image
/// without an export table.
#[test]
fn errors_read_as_they_should() {
    assert_eq!(
        Error::BadSuperblock("bad version").to_string(),
        "malformed superblock: bad version"
    );
    assert_eq!(
        Error::UnsupportedCompression(65535).to_string(),
        "unsupported SquashFS compressor id 65535"
    );
    let short = BlockError::ShortRead {
        offset: u64::MAX,
        want: 96,
        got: 10,
    };
    assert_eq!(
        Error::Block(short).to_string(),
        "block device: ShortRead { offset: 18446744073709551615, want: 96, got: 10 }"
    );
    let bounds = BlockError::OutOfBounds {
        offset: 1,
        len: 2,
        size: 3,
    };
    assert_eq!(
        bounds.to_string(),
        "OutOfBounds { offset: 1, len: 2, size: 3 }"
    );
    assert_eq!(BlockError::ReadOnly.to_string(), "ReadOnly");
    assert_eq!(BlockError::Other(String::from("gone")).to_string(), "gone");
    assert_eq!(Error::NotExportable.to_errno(), ENOTSUP);
    assert_ne!(Error::NotExportable.to_errno(), Error::NotFound.to_errno());
    assert_eq!((ENOENT, EIO, ENOTDIR, EINVAL, ERANGE, ENOTSUP), (2, 5, 20, 22, 34, 45));
}

#[test]
fn decimals_are_decimals() {
    for n in [0u64, 7, 10, 99, 100, 12345, u64::MAX] {
        assert_eq!(decimal(n), format!("{n}"));
    }
}

#[test]
fn little_endian_integers() {
    let b = [0x88u8, 0x77, 0x66, 0x55, 0x44, 0x33, 0x22, 0x11, 0xFF];
    assert_eq!(get_le16(&b, 0), 0x7788);
    assert_eq!(get_le32(&b, 1), 0x4455_6677);
    assert_eq!(get_le64(&b, 0), 0x1122_3344_5566_7788);
    assert_eq!(get_le64(&b, 1), 0xFF11_2233_4455_6677);
}

// ---- directory listings ----

/// Build a one-header listing with the given (name, type, offset,
/// inode_delta) entries sharing metadata-block `start`/`base_inode`.
fn synth_listing(start: u32, base_inode: u32, entries: &[(&[u8], u16, u16, i16)]) -> Vec<u8> {
    let mut b = Vec::new();
    b.extend_from_slice(&((entries.len() as u32) - 1).to_le_bytes());
    b.extend_from_slice(&start.to_le_bytes());
    b.extend_from_slice(&base_inode.to_le_bytes());
    for (name, type_id, offset, delta) in entries {
        b.extend_from_slice(&offset.to_le_bytes());
        b.extend_from_slice(&delta.to_le_bytes());
        b.extend_from_slice(&type_id.to_le_bytes());
        b.extend_from_slice(&((name.len() as u16) - 1).to_le_bytes());
        b.extend_from_slice(name);
    }
    b
}

#[test]
fn parses_single_header() {
    let buf = synth_listing(5, 100, &[(b"hello.txt", 2, 0x40, 0), (b"sub", 1, 0x80, 3)]);
    let entries = parse_listing(&buf).unwrap();
    assert_eq!(entries.len(), 2);
    assert_eq!(entries[0].name, b"hello.txt");
    assert_eq!(entries[0].type_id, 2);
    assert_eq!(entries[0].inode_ref, (5u64 << 16) | 0x40);
    assert_eq!(entries[0].inode_number, 100);
    assert_eq!(entries[1].name, b"sub");
    assert_eq!(entries[1].inode_ref, (5u64 << 16) | 0x80);
    assert_eq!(entries[1].inode_number, 103);
}

#[test]
fn empty_buffer_yields_no_entries() {
    assert!(parse_listing(&[]).unwrap().is_empty());
}

#[test]
fn negative_inode_delta() {
    let buf = synth_listing(0, 100, &[(b"a", 2, 0, -10)]);
    let e = parse_listing(&buf).unwrap();
    assert_eq!(e[0].inode_number, 90);
}

#[test]
fn rejects_truncated_name() {
    let mut buf = synth_listing(0, 1, &[(b"abcdef", 2, 0, 0)]);
    buf.truncate(buf.len() - 2); // chop part of the name
    assert!(matches!(parse_listing(&buf), Err(Error::BadDirent(_))));
}

#[test]
fn rejects_truncated_header() {
    assert!(matches!(parse_listing(&[0u8; 5]), Err(Error::BadDirent(_))));
}

fn dirent_refusal(buf: &[u8]) -> &'static str {
    match parse_listing(buf) {
        Err(Error::BadDirent(why)) => why,
        other => panic!("expected a refusal, got {other:?}"),
    }
}

/// Each way a listing can be malformed, by name; and the extremes that are
/// not malformed.
#[test]
fn each_malformed_listing_is_named() {
    assert_eq!(dirent_refusal(&[0u8; 11]), "truncated directory header");
    let one = synth_listing(0, 1, &[(b"abc", 2, 0, 0)]);
    assert_eq!(
        dirent_refusal(&one[..19]),
        "truncated directory entry header"
    );
    assert_eq!(dirent_refusal(&one[..22]), "truncated directory entry name");

    let mut many = one.clone();
    many[0..4].copy_from_slice(&MAX_ENTRIES_PER_HEADER.to_le_bytes());
    assert_eq!(dirent_refusal(&many), "directory header count > 256");
    many[0..4].copy_from_slice(&u32::MAX.to_le_bytes());
    assert_eq!(dirent_refusal(&many), "directory header count > 256");

    let longest = vec![b'n'; SQUASHFS_NAME_LEN];
    let buf = synth_listing(0, 1, &[(&longest, 2, 0, 0)]);
    assert_eq!(parse_listing(&buf).unwrap()[0].name, longest);
    let longer = vec![b'n'; SQUASHFS_NAME_LEN + 1];
    let buf = synth_listing(0, 1, &[(&longer, 2, 0, 0)]);
    assert_eq!(dirent_refusal(&buf), "entry name too long");

    let entry: (&[u8], u16, u16, i16) = (b"x", 1, 0, 0);
    let full = synth_listing(7, 9, &vec![entry; 256]);
    assert_eq!(parse_listing(&full).unwrap().len(), 256);
}

/// Several headers follow each other, each with its own base.
#[test]
fn headers_follow_each_other() {
    let mut buf = synth_listing(1, 10, &[(b"a", 1, 2, 0), (b"b", 2, 3, 1)]);
    buf.extend(synth_listing(0xFFFF_FFFF, 0, &[(b"c", 3, 0xFFFF, -1)]));
    let e = parse_listing(&buf).unwrap();
    assert_eq!(e.len(), 3);
    assert_eq!(e[1].inode_ref, (1 << 16) | 3);
    assert_eq!(e[2].inode_ref, 0xFFFF_FFFF_FFFF);
    assert_eq!(e[2].inode_number, u32::MAX);
}

// ---- inodes ----

#[test]
fn file_type_mapping_basic_and_extended() {
    assert_eq!(FileType::from_type_id(TYPE_BASIC_DIR), FileType::Dir);
    assert_eq!(FileType::from_type_id(TYPE_EXT_DIR), FileType::Dir);
    assert_eq!(FileType::from_type_id(TYPE_BASIC_FILE), FileType::RegFile);
    assert_eq!(FileType::from_type_id(TYPE_EXT_FILE), FileType::RegFile);
    assert_eq!(FileType::from_type_id(TYPE_EXT_SYMLINK), FileType::Symlink);
    assert_eq!(FileType::from_type_id(99), FileType::Unknown);
}

#[test]
fn abi_and_mode_bits() {
    assert_eq!(FileType::Dir.to_abi(), 2);
    assert_eq!(FileType::RegFile.to_abi(), 1);
    assert_eq!(FileType::Symlink.to_abi(), 7);
    assert_eq!(FileType::Dir.mode_bits(), 0o040000);
    assert_eq!(FileType::Symlink.mode_bits(), 0o120000);
}

/// Every type, its code and its mode bits.
#[test]
fn every_file_type_has_its_codes() {
    let cases = [
        (TYPE_BASIC_DIR, TYPE_EXT_DIR, 2u8, 0o040000u16),
        (TYPE_BASIC_FILE, TYPE_EXT_FILE, 1, 0o100000),
        (TYPE_BASIC_SYMLINK, TYPE_EXT_SYMLINK, 7, 0o120000),
        (TYPE_BASIC_CHRDEV, TYPE_EXT_CHRDEV, 3, 0o020000),
        (TYPE_BASIC_BLKDEV, TYPE_EXT_BLKDEV, 4, 0o060000),
        (TYPE_BASIC_FIFO, TYPE_EXT_FIFO, 5, 0o010000),
        (TYPE_BASIC_SOCKET, TYPE_EXT_SOCKET, 6, 0o140000),
        (0, 15, 0, 0),
    ];
    for (basic, extended, abi, mode) in cases {
        for t in [basic, extended] {
            assert_eq!(FileType::from_type_id(t).to_abi(), abi, "type {t}");
            assert_eq!(FileType::from_type_id(t).mode_bits(), mode, "type {t}");
        }
    }
}

#[test]
fn block_count_with_and_without_fragment() {
    // 4 KiB blocks, file 10000 bytes.
    // No fragment: ceil(10000/4096) = 3 blocks.
    assert_eq!(block_count(10000, 4096, SQUASHFS_INVALID_FRAG).unwrap(), 3);
    // With fragment: floor(10000/4096) = 2 full blocks + a fragment.
    assert_eq!(block_count(10000, 4096, 0).unwrap(), 2);
}

#[test]
fn block_count_rejects_absurd() {
    assert!(block_count(u64::MAX, 4096, SQUASHFS_INVALID_FRAG).is_err());
}

/// The bound on the number of blocks is met and then passed by one byte.
#[test]
fn block_count_bound_is_exact() {
    let most = (1u64 << 24) * 4096;
    assert_eq!(
        block_count(most, 4096, SQUASHFS_INVALID_FRAG).unwrap(),
        1 << 24
    );
    assert!(block_count(most + 1, 4096, SQUASHFS_INVALID_FRAG).is_err());
    assert_eq!(block_count(most + 4095, 4096, 0).unwrap(), 1 << 24);
    assert!(block_count(most + 4096, 4096, 0).is_err());
    assert_eq!(block_count(0, 4096, SQUASHFS_INVALID_FRAG).unwrap(), 0);
}

fn plain_inode(inode_type: u16) -> Inode {
    Inode {
        inode_type,
        permissions: 0o755,
        uid_idx: 0,
        gid_idx: 0,
        mtime: 0,
        inode_number: 1,
        nlink: 2,
        file_size: 3,
        rdev: 0,
        xattr_index: SQUASHFS_INVALID_XATTR,
        dir_start_block: 0,
        dir_block_offset: 0,
        blocks_start: 0,
        fragment_index: SQUASHFS_INVALID_FRAG,
        fragment_offset: 0,
        block_sizes: Vec::new(),
        symlink_target: Vec::new(),
    }
}

#[test]
fn dir_listing_len_subtracts_three() {
    let mut ino = plain_inode(TYPE_BASIC_DIR);
    // file_size == 3 -> empty listing.
    assert_eq!(ino.dir_listing_len(), 0);
    ino.file_size = 27;
    assert_eq!(ino.dir_listing_len(), 24);
    ino.file_size = 0;
    assert_eq!(ino.dir_listing_len(), 0);
}

#[test]
fn inode_questions_follow_its_type() {
    let mut ino = plain_inode(TYPE_EXT_FILE);
    assert!(ino.is_regular_file() && !ino.is_dir() && !ino.is_symlink());
    assert!(!ino.has_fragment() && !ino.has_xattrs());
    ino.fragment_index = 0;
    ino.xattr_index = 0;
    assert!(ino.has_fragment() && ino.has_xattrs());
    ino.inode_type = TYPE_BASIC_SYMLINK;
    assert!(ino.is_symlink() && !ino.has_fragment());
    ino.inode_type = TYPE_EXT_DIR;
    assert!(ino.is_dir());
}

/// A device number in the Linux encoding: 12 bits of major, 20 of minor.
#[test]
fn device_numbers_are_unpacked() {
    let mut ino = plain_inode(TYPE_BASIC_BLKDEV);
    for (major, minor) in [(8u32, 1u32), (259, 0), (4095, 255), (1, 0xF_FFFF), (0, 256)] {
        ino.rdev = (minor & 0xFF) | (major << 8) | ((minor & !0xFF) << 12);
        assert_eq!((ino.rdev_major(), ino.rdev_minor()), (major, minor));
    }
}

// ---- references, size words and limits ----

#[test]
fn the_low_sixteen_bits_are_the_offset_within_the_block() {
    let r = MetadataRef::from_packed(0x0000_0001_2345_ABCD);
    assert_eq!(r.block_offset, 0x0000_0001_2345, "the high 48 bits");
    assert_eq!(r.in_block, 0xABCD, "the low 16 bits");
}

#[test]
fn a_reference_at_the_start_of_the_first_block_is_all_zeroes() {
    let r = MetadataRef::from_packed(0);
    assert_eq!((r.block_offset, r.in_block), (0, 0));
    assert_eq!(r.start_abs(4096), 4096, "the table's own start");
}

#[test]
fn start_abs_saturates_rather_than_wrapping() {
    // packed >> 16 is the block offset, so 1 << 56 packed is
    // 1 << 40 offset.
    let r = MetadataRef::from_packed(1u64 << 56);
    assert_eq!(r.block_offset, 1 << 40);
    assert_eq!(r.start_abs(0xffff_ff00_0000_0060), u64::MAX);
    // And an ordinary reference is untouched.
    let r = MetadataRef::from_packed((3u64 << 16) | 7);
    assert_eq!(r.start_abs(1000), 1003);
}

#[test]
fn start_abs_adds_the_block_offset_to_the_table() {
    let r = MetadataRef::from_packed((7 << 16) | 42);
    assert_eq!(r.block_offset, 7);
    assert_eq!(r.in_block, 42);
    assert_eq!(r.start_abs(1000), 1007);
}

#[test]
fn sixteen_bits_more_than_covers_a_metablock() {
    assert!(u16::MAX as usize >= 8192, "a metablock is at most 8 KiB");
}

#[test]
fn the_halves_of_a_reference_give_it_back() {
    for packed in [0u64, 1, 0xFFFF, 0x1_0000, 0x1234_5678_9ABC_DEF0, u64::MAX] {
        let r = MetadataRef::from_packed(packed);
        assert_eq!((r.block_offset << 16) | r.in_block as u64, packed);
    }
}

#[test]
fn data_size_word_decoding() {
    // Compressed 1234-byte block: bit 24 clear.
    assert_eq!(data_on_disk_size(1234), 1234);
    assert!(data_is_compressed(1234));
    // Uncompressed 4096-byte block: bit 24 set.
    let raw = 4096 | DATA_COMPRESSED_BIT;
    assert_eq!(data_on_disk_size(raw), 4096);
    assert!(!data_is_compressed(raw));
    // Sparse block: size word 0.
    assert_eq!(data_on_disk_size(0), 0);
}

#[test]
fn an_entry_never_straddles_a_metadata_block() {
    assert_eq!(fs_squashfs::superblock::METADATA_SIZE % EXPORT_ENTRY_SIZE, 0);
}

#[test]
fn the_limits_are_the_ones_the_docs_name() {
    assert_eq!(SQUASHFS_INVALID_XATTR, u32::MAX);
    assert_eq!(NO_TABLE, u64::MAX);
    assert_eq!(XATTR_VALUE_OOL, 0x0100);
    assert_eq!(MAX_NAME_LEN, 255, "XATTR_NAME_MAX");
    assert_eq!(MAX_VALUE_LEN, 64 * 1024, "XATTR_SIZE_MAX");
    assert_eq!(ID_ENTRY_SIZE * 512, 8192, "an entry must tile a metablock");
}
