//! Metadata blocks, cursors, tables, attribute sets and file data over
//! hand-built bytes.

use std::sync::{Arc, Mutex};

use flate2::{Compress, Compression, FlushCompress};
use fs_squashfs::cache::BlockCache;
use fs_squashfs::decompress::Compressor;
use fs_squashfs::device::{BlockRead, MemDevice};
use fs_squashfs::error::{BlockError, Error};
use fs_squashfs::fs::Filesystem;
use fs_squashfs::inode::{Inode, TYPE_BASIC_DIR, TYPE_BASIC_FILE};
use fs_squashfs::metablock::{read_block, MetaCache, MetaCursor, UNCOMPRESSED_BIT};
use fs_squashfs::superblock::{
    Superblock, SQUASHFS_INVALID_FRAG, SQUASHFS_MAGIC, SUPERBLOCK_SIZE,
};
use fs_squashfs::table::{
    read_export_table, read_fragment_table, read_id_table, DATA_UNCOMPRESSED_BIT, NO_TABLE,
};
use fs_squashfs::xattr::{
    read_id_table as read_xattr_table, read_set, XattrIdTable, SQUASHFS_INVALID_XATTR,
    XATTR_VALUE_OOL,
};

/// An in-memory device.
struct MemDev(Mutex<Vec<u8>>);

impl BlockRead for MemDev {
    fn read_at(&self, offset: u64, len: usize) -> Result<Vec<u8>, BlockError> {
        let v = self.0.lock().unwrap();
        let start = offset as usize;
        let end = start.saturating_add(len);
        if start > v.len() || end > v.len() {
            return Err(BlockError::ShortRead {
                offset,
                want: len,
                got: v.len().saturating_sub(start),
            });
        }
        Ok(v[start..end].to_vec())
    }
    fn size_bytes(&self) -> u64 {
        self.0.lock().unwrap().len() as u64
    }
}

fn zlib(data: &[u8]) -> Vec<u8> {
    let mut enc = Compress::new(Compression::default(), true);
    let mut out = vec![0u8; data.len() + 64];
    enc.compress(data, &mut out, FlushCompress::Finish).unwrap();
    out.truncate(enc.total_out() as usize);
    out
}

/// Emit a metadata block (header + payload) for `payload`, compressed.
fn emit_meta(payload: &[u8]) -> Vec<u8> {
    let comp = zlib(payload);
    let mut out = Vec::new();
    out.extend_from_slice(&(comp.len() as u16).to_le_bytes());
    out.extend_from_slice(&comp);
    out
}

/// Emit an UNCOMPRESSED metadata block (sets bit 15).
fn emit_meta_raw(payload: &[u8]) -> Vec<u8> {
    let mut out = Vec::new();
    out.extend_from_slice(&((payload.len() as u16) | UNCOMPRESSED_BIT).to_le_bytes());
    out.extend_from_slice(payload);
    out
}

/// Build a minimal valid 96-byte superblock.
fn synth_sb(block_log: u16, root_ref: u64, inode_table_start: u64) -> Vec<u8> {
    let mut b = vec![0u8; SUPERBLOCK_SIZE];
    b[0x00..0x04].copy_from_slice(&SQUASHFS_MAGIC.to_le_bytes());
    b[0x0C..0x10].copy_from_slice(&(1u32 << block_log).to_le_bytes());
    b[0x14..0x16].copy_from_slice(&1u16.to_le_bytes()); // gzip
    b[0x16..0x18].copy_from_slice(&block_log.to_le_bytes());
    b[0x1C..0x1E].copy_from_slice(&4u16.to_le_bytes()); // version_major
    b[0x20..0x28].copy_from_slice(&root_ref.to_le_bytes());
    b[0x40..0x48].copy_from_slice(&inode_table_start.to_le_bytes());
    b
}

fn sb() -> Superblock {
    Superblock::parse(&synth_sb(17, 0, 0)).unwrap()
}

/// No cache: one that is switched off.
fn none() -> MetaCache {
    MetaCache::new(0)
}

// ---- metadata blocks ----

#[test]
fn read_compressed_block() {
    let payload = b"the quick brown fox".repeat(20);
    let img = emit_meta(&payload);
    let dev = MemDev(Mutex::new(img.clone()));
    let (out, next) = read_block(&dev, &sb(), 0, &mut none()).unwrap();
    assert_eq!(*out, payload);
    assert_eq!(next as usize, img.len());
}

#[test]
fn read_uncompressed_block() {
    let payload = b"raw bytes";
    let img = emit_meta_raw(payload);
    let dev = MemDev(Mutex::new(img));
    let (out, _next) = read_block(&dev, &sb(), 0, &mut none()).unwrap();
    assert_eq!(out.as_slice(), payload);
}

#[test]
fn cursor_spans_block_boundary() {
    // Two metadata blocks; a record straddles the seam.
    let first = vec![0xAAu8; 100];
    let second = {
        let mut v = vec![0xBBu8; 100];
        v[0] = 0xCC;
        v
    };
    let mut img = emit_meta(&first);
    img.extend_from_slice(&emit_meta(&second));
    let dev = MemDev(Mutex::new(img));
    let s = sb();
    let mut off = none();
    let mut cur = MetaCursor::new(&dev, &s, 0, 98, &mut off).unwrap();
    // Read 4 bytes starting 98 into block 0: 2 from block 0 (0xAA),
    // then 2 from block 1 (0xCC, 0xBB).
    let got = cur.read_exact(4).unwrap();
    assert_eq!(got, vec![0xAA, 0xAA, 0xCC, 0xBB]);
}

#[test]
fn rejects_zero_size_header() {
    let img = vec![0u8, 0u8]; // size 0
    let dev = MemDev(Mutex::new(img));
    assert!(matches!(
        read_block(&dev, &sb(), 0, &mut none()),
        Err(Error::BadMetadata(_))
    ));
}

/// A device that counts what it is asked for, so a test can say "and this
/// time nothing reached the disk" rather than inferring it.
struct CountingMem {
    inner: MemDev,
    reads: Mutex<u64>,
}

impl CountingMem {
    fn new(bytes: Vec<u8>) -> Self {
        CountingMem {
            inner: MemDev(Mutex::new(bytes)),
            reads: Mutex::new(0),
        }
    }
    fn reads(&self) -> u64 {
        *self.reads.lock().unwrap()
    }
}

impl BlockRead for CountingMem {
    fn read_at(&self, offset: u64, len: usize) -> Result<Vec<u8>, BlockError> {
        *self.reads.lock().unwrap() += 1;
        self.inner.read_at(offset, len)
    }
    fn size_bytes(&self) -> u64 {
        self.inner.size_bytes()
    }
}

/// Two metadata blocks back to back, and where the second starts.
fn two_blocks() -> (Vec<u8>, Vec<u8>, Vec<u8>, u64) {
    let first = b"first block payload".repeat(11);
    let second = b"second block payload".repeat(13);
    let mut img = emit_meta(&first);
    let second_abs = img.len() as u64;
    img.extend_from_slice(&emit_meta(&second));
    (img, first, second, second_abs)
}

#[test]
fn a_second_read_of_the_same_block_touches_neither_device_nor_codec() {
    let (img, first, _second, _) = two_blocks();
    let dev = CountingMem::new(img);
    let mut cache = MetaCache::new(8);

    let (a, next_a) = read_block(&dev, &sb(), 0, &mut cache).unwrap();
    let after_first = dev.reads();
    assert!(after_first > 0, "the first read must reach the device");

    let (b, next_b) = read_block(&dev, &sb(), 0, &mut cache).unwrap();
    assert_eq!(
        dev.reads(),
        after_first,
        "the second read reached the device"
    );
    assert_eq!(*b, first, "the cached bytes are not the block's bytes");
    // The successor offset is NOT derivable from the decompressed
    // bytes -- it comes from the on-disk length in the 2-byte header,
    // which a hit never reads. Getting it wrong would send the next
    // refill to the wrong place, and only a cursor spanning a
    // boundary would ever notice.
    assert_eq!(next_b, next_a, "the cached successor offset is wrong");
    // Shared, not copied: a hit hands out the same allocation.
    assert!(Arc::ptr_eq(&a, &b));

    let (_, _, hits, misses) = cache.stats();
    assert_eq!((hits, misses), (1, 1));
}

#[test]
fn a_disabled_cache_decompresses_every_time() {
    let (img, first, _second, _) = two_blocks();
    let dev = CountingMem::new(img);
    let mut cache = MetaCache::new(0);

    let (a, _) = read_block(&dev, &sb(), 0, &mut cache).unwrap();
    let after_first = dev.reads();
    let (b, _) = read_block(&dev, &sb(), 0, &mut cache).unwrap();

    assert_eq!(*a, first);
    assert_eq!(*b, first);
    assert!(dev.reads() > after_first, "a disabled cache served a hit");
    // A disabled cache reports nothing rather than a 0% hit rate over
    // reads it was never consulted about.
    assert_eq!(cache.stats(), (0, 0, 0, 0));
}

#[test]
fn the_cache_evicts_at_capacity() {
    let (img, _first, _second, second_abs) = two_blocks();
    let dev = CountingMem::new(img);
    let mut cache = MetaCache::new(1);

    // Alternating between two blocks with room for one: the entry
    // put in by each read is the one the next read evicts, so every
    // read is a miss.
    for _ in 0..3 {
        read_block(&dev, &sb(), 0, &mut cache).unwrap();
        read_block(&dev, &sb(), second_abs, &mut cache).unwrap();
    }
    let (entries, capacity, hits, misses) = cache.stats();
    assert_eq!((entries, capacity), (1, 1));
    assert_eq!(hits, 0, "an entry survived past the capacity");
    assert_eq!(misses, 6);
}

#[test]
fn set_capacity_to_zero_switches_it_off_and_drops_what_it_held() {
    let (img, _first, _second, _) = two_blocks();
    let dev = CountingMem::new(img);
    let mut cache = MetaCache::new(8);
    read_block(&dev, &sb(), 0, &mut cache).unwrap();
    assert_eq!(cache.stats().0, 1);

    // Resizing restarts the counters as well as dropping the
    // entries: a hit rate averaged over two capacities is a number
    // about neither of them.
    cache.set_capacity(0);
    assert_eq!(cache.stats(), (0, 0, 0, 0));
    let before = dev.reads();
    read_block(&dev, &sb(), 0, &mut cache).unwrap();
    assert!(dev.reads() > before, "a switched-off cache still served");
}

/// The cache changes how the cursor holds its bytes -- one block is
/// borrowed from the cache, a record spanning two gets a buffer of its own
/// -- so the spanning case has to give the same answer with the cache on as
/// with it off.
#[test]
fn a_record_spanning_a_boundary_reads_the_same_cached_or_not() {
    let first = vec![0xAAu8; 100];
    let second = {
        let mut v = vec![0xBBu8; 100];
        v[0] = 0xCC;
        v
    };
    let mut img = emit_meta(&first);
    img.extend_from_slice(&emit_meta(&second));
    let dev = MemDev(Mutex::new(img));
    let s = sb();
    let mut cache = MetaCache::new(8);

    let mut cold = MetaCursor::new(&dev, &s, 0, 98, &mut cache).unwrap();
    let cold = cold.read_exact(4).unwrap();
    // Second time round both blocks are already in the cache, which
    // is the path where the cursor splices a borrowed block onto a
    // fresh one.
    let mut warm = MetaCursor::new(&dev, &s, 0, 98, &mut cache).unwrap();
    let warm = warm.read_exact(4).unwrap();

    assert_eq!(cold, vec![0xAA, 0xAA, 0xCC, 0xBB]);
    assert_eq!(warm, cold);
}

/// Reading a long record pulls block after block.
#[test]
fn a_record_spanning_three_blocks_comes_back_byte_for_byte() {
    let blocks: Vec<Vec<u8>> = (0u8..3).map(|i| vec![0x10 + i; 200]).collect();
    let mut img = Vec::new();
    for b in &blocks {
        img.extend_from_slice(&emit_meta(b));
    }
    let dev = MemDev(Mutex::new(img));
    let s = sb();
    let mut cache = MetaCache::new(8);

    let want: Vec<u8> = blocks.concat()[50..].to_vec();
    for pass in 0..2 {
        let mut cur = MetaCursor::new(&dev, &s, 0, 50, &mut cache).unwrap();
        let got = cur.read_exact(want.len()).unwrap();
        assert_eq!(got, want, "pass {pass}");
    }
}

// ---- tables ----

/// `read_fragment_table` runs unconditionally at mount, and its size comes
/// from a `u32` in the superblock.
#[test]
fn a_fragment_table_with_no_room_for_its_pointers_is_refused_by_name() {

    let mut raw = synth_sb(17, 0, 96);
    raw[0x10..0x14].copy_from_slice(&u32::MAX.to_le_bytes()); // fragment_entry_count
    raw[0x28..0x30].copy_from_slice(&4000u64.to_le_bytes()); // bytes_used
    raw[0x50..0x58].copy_from_slice(&96u64.to_le_bytes()); // fragment_table_start
    let sb = Superblock::parse(&raw).unwrap();
    assert_eq!(sb.fragment_entry_count, u32::MAX);

    let dev = MemDev(Mutex::new(vec![0u8; 4000]));
    let why = format!("{:?}", read_fragment_table(&dev, &sb).err());
    assert!(
        why.contains("more blocks than it has room for"),
        "a 64 MiB fragment table in a 4000-byte image was refused as {why}, \
         which means the buffer was allocated and read first"
    );
}

/// An export table built by hand, so the indexing can be tested against
/// entries whose values are known.
fn export_image(refs: &[u64]) -> (Vec<u8>, Superblock) {

    let mut entries = Vec::new();
    for r in refs {
        entries.extend_from_slice(&r.to_le_bytes());
    }
    let mut img = vec![0u8; 96];
    let block_at = img.len() as u64;
    img.extend_from_slice(&emit_meta(&entries));
    let table_at = img.len() as u64;
    img.extend_from_slice(&block_at.to_le_bytes());

    let mut raw = synth_sb(17, 0, 0);
    raw[0x04..0x08].copy_from_slice(&(refs.len() as u32).to_le_bytes()); // inode_count
    raw[0x28..0x30].copy_from_slice(&(img.len() as u64 + 8).to_le_bytes()); // bytes_used
    raw[0x58..0x60].copy_from_slice(&table_at.to_le_bytes());
    let sb = Superblock::parse(&raw).unwrap();
    (img, sb)
}

/// Inode numbers are 1-BASED.
#[test]
fn entry_n_minus_one_is_inode_n() {

    let refs = [0x1111u64, 0x2222, 0x3333, 0x4444];
    let (img, sb) = export_image(&refs);
    let dev = MemDev(Mutex::new(img));
    let table = read_export_table(&dev, &sb).unwrap().expect("a table");
    assert_eq!(table.inode_count(), refs.len() as u32);

    for (i, want) in refs.iter().enumerate() {
        let n = i as u32 + 1;
        assert_eq!(
            table.lookup(&dev, &sb, n, &mut none()).unwrap(),
            *want,
            "inode {n} resolved to the wrong entry"
        );
    }
}

/// Zero is not an inode number, and neither is one past the last.
#[test]
fn numbers_outside_the_table_are_refused() {

    let (img, sb) = export_image(&[0x1111, 0x2222]);
    let dev = MemDev(Mutex::new(img));
    let table = read_export_table(&dev, &sb).unwrap().unwrap();
    assert!(matches!(
        table.lookup(&dev, &sb, 0, &mut none()),
        Err(Error::NotFound)
    ));
    assert!(matches!(
        table.lookup(&dev, &sb, 3, &mut none()),
        Err(Error::NotFound)
    ));
    assert!(matches!(
        table.lookup(&dev, &sb, u32::MAX, &mut none()),
        Err(Error::NotFound)
    ));
}

/// `mksquashfs -no-exports` writes the sentinel every absent table uses,
/// and absence has to be a normal answer rather than an error.
#[test]
fn an_image_without_an_export_table_reports_none() {

    let mut raw = synth_sb(17, 0, 0);
    raw[0x58..0x60].copy_from_slice(&NO_TABLE.to_le_bytes());
    let sb = Superblock::parse(&raw).unwrap();
    let dev = MemDev(Mutex::new(vec![0u8; 96]));
    assert!(read_export_table(&dev, &sb).unwrap().is_none());
}

/// `inode_count` is a `u32` off the superblock and it sizes a read at
/// mount.
#[test]
fn an_export_table_with_no_room_for_its_pointers_is_refused_by_name() {

    let mut raw = synth_sb(17, 0, 96);
    raw[0x04..0x08].copy_from_slice(&u32::MAX.to_le_bytes()); // inode_count
    raw[0x28..0x30].copy_from_slice(&4000u64.to_le_bytes()); // bytes_used
    raw[0x58..0x60].copy_from_slice(&96u64.to_le_bytes());
    let sb = Superblock::parse(&raw).unwrap();

    let dev = MemDev(Mutex::new(vec![0u8; 4000]));
    let why = format!("{:?}", read_export_table(&dev, &sb).err());
    assert!(
        why.contains("more blocks than it has room for"),
        "a 32 MiB export table in a 4000-byte image was refused as {why}, \
         which means the buffer was allocated and read first"
    );
}

#[test]
fn empty_tables_short_circuit() {
    let dev = MemDev(Mutex::new(vec![0u8; 96]));
    let sb = Superblock::parse(&synth_sb(17, 0, 0)).unwrap();
    // id_count and fragment_entry_count are 0 in the synth SB.
    assert!(read_id_table(&dev, &sb).unwrap().is_empty());
    assert!(read_fragment_table(&dev, &sb).unwrap().is_empty());
}

// ---- attribute sets ----

/// One name/value pair, as it sits in a metadata block.
fn pair(prefix: u16, suffix: &[u8], value: &[u8]) -> Vec<u8> {
    let mut b = Vec::new();
    b.extend_from_slice(&prefix.to_le_bytes());
    b.extend_from_slice(&(suffix.len() as u16).to_le_bytes());
    b.extend_from_slice(suffix);
    b.extend_from_slice(&(value.len() as u32).to_le_bytes());
    b.extend_from_slice(value);
    b
}

/// A pair whose value is a reference to `target` rather than the value
/// itself.
fn ool_pair(prefix: u16, suffix: &[u8], target: u64) -> Vec<u8> {
    let mut b = Vec::new();
    b.extend_from_slice(&(prefix | XATTR_VALUE_OOL).to_le_bytes());
    b.extend_from_slice(&(suffix.len() as u16).to_le_bytes());
    b.extend_from_slice(suffix);
    b.extend_from_slice(&8u32.to_le_bytes());
    b.extend_from_slice(&target.to_le_bytes());
    b
}

/// What `size` must be, computed the way the format computes it.
fn declared_size(pairs: &[(&[u8], &[u8])]) -> u32 {
    pairs
        .iter()
        .map(|(n, v)| n.len() as u32 + 1 + v.len() as u32)
        .sum()
}

/// Assemble an image holding one pair area and one id table.
fn image(pair_area: &[u8], ids: &[(u64, u32, u32)]) -> (Vec<u8>, u64) {
    let mut img = vec![0u8; 96]; // room for a superblock
    let table_start = img.len() as u64;
    img.extend_from_slice(&emit_meta(pair_area));

    let mut id_bytes = Vec::new();
    for (xattr_ref, count, size) in ids {
        id_bytes.extend_from_slice(&xattr_ref.to_le_bytes());
        id_bytes.extend_from_slice(&count.to_le_bytes());
        id_bytes.extend_from_slice(&size.to_le_bytes());
    }
    let id_block_at = img.len() as u64;
    img.extend_from_slice(&emit_meta(&id_bytes));

    let header_at = img.len() as u64;
    img.extend_from_slice(&table_start.to_le_bytes());
    img.extend_from_slice(&(ids.len() as u32).to_le_bytes());
    img.extend_from_slice(&0u32.to_le_bytes());
    img.extend_from_slice(&id_block_at.to_le_bytes());
    (img, header_at)
}

fn mount(img: Vec<u8>, header_at: u64) -> (MemDev, Superblock, XattrIdTable) {
    let mut sb = Superblock::parse(&synth_sb(17, 0, 0)).unwrap();
    sb.xattr_id_table_start = header_at;
    sb.bytes_used = img.len() as u64;
    let dev = MemDev(Mutex::new(img));
    let table = read_xattr_table(&dev, &sb).unwrap().expect("a table");
    (dev, sb, table)
}

#[test]
fn reads_a_set_of_two_and_assembles_the_prefixes() {
    let mut area = pair(0, b"colour", b"blue");
    area.extend(pair(1, b"level", b"high"));
    let size = declared_size(&[(b"user.colour", b"blue"), (b"trusted.level", b"high")]);
    let (img, at) = image(&area, &[(0, 2, size)]);
    let (dev, sb, table) = mount(img, at);

    let got = read_set(&dev, &sb, &table, 0, &mut none()).unwrap();
    assert_eq!(got.len(), 2);
    assert_eq!(got[0].name, b"user.colour");
    assert_eq!(got[0].value, b"blue");
    assert_eq!(got[1].name, b"trusted.level");
    assert_eq!(got[1].value, b"high");
}

#[test]
fn every_defined_prefix_is_assembled() {
    for (idx, want) in [
        (0u16, &b"user.x"[..]),
        (1, &b"trusted.x"[..]),
        (2, &b"security.x"[..]),
    ] {
        let area = pair(idx, b"x", b"v");
        let (img, at) = image(&area, &[(0, 1, want.len() as u32 + 1 + 1)]);
        let (dev, sb, table) = mount(img, at);
        assert_eq!(read_set(&dev, &sb, &table, 0, &mut none()).unwrap()[0].name, want);
    }
}

/// A fourth namespace has never been defined.
#[test]
fn an_undefined_namespace_is_refused() {
    let area = pair(3, b"x", b"v");
    let (img, at) = image(&area, &[(0, 1, 10)]);
    let (dev, sb, table) = mount(img, at);
    assert!(matches!(
        read_set(&dev, &sb, &table, 0, &mut none()),
        Err(Error::BadMetadata(_))
    ));
}

/// The out-of-line hop, which is how one value is shared between sets.
#[test]
fn an_out_of_line_value_is_followed_and_can_be_shared() {
    let shared = b"a value worth sharing".to_vec();
    // The value record: a bare u32 length and its bytes, with no
    // type and no name.
    let mut area = Vec::new();
    area.extend_from_slice(&(shared.len() as u32).to_le_bytes());
    area.extend_from_slice(&shared);
    let target = 0u64; // block 0, offset 0

    let first_at = area.len() as u64;
    area.extend(ool_pair(0, b"one", target));
    let second_at = area.len() as u64;
    area.extend(ool_pair(2, b"two", target));

    let size_one = declared_size(&[(b"user.one", &shared)]);
    let size_two = declared_size(&[(b"security.two", &shared)]);
    let (img, at) = image(&area, &[(first_at, 1, size_one), (second_at, 1, size_two)]);
    let (dev, sb, table) = mount(img, at);

    let a = read_set(&dev, &sb, &table, 0, &mut none()).unwrap();
    let b = read_set(&dev, &sb, &table, 1, &mut none()).unwrap();
    assert_eq!(a[0].name, b"user.one");
    assert_eq!(a[0].value, shared);
    assert_eq!(b[0].name, b"security.two");
    assert_eq!(b[0].value, shared, "the shared value read differently");
}

/// The flag says the value is a reference; the length says how long it is.
#[test]
fn an_out_of_line_value_of_the_wrong_length_is_refused() {
    let mut area = Vec::new();
    area.extend_from_slice(&(XATTR_VALUE_OOL).to_le_bytes());
    area.extend_from_slice(&1u16.to_le_bytes());
    area.push(b'x');
    area.extend_from_slice(&4u32.to_le_bytes()); // not 8
    area.extend_from_slice(&0u32.to_le_bytes());
    let (img, at) = image(&area, &[(0, 1, 100)]);
    let (dev, sb, table) = mount(img, at);
    assert!(matches!(
        read_set(&dev, &sb, &table, 0, &mut none()),
        Err(Error::BadMetadata(_))
    ));
}

/// `size` is derivable from the decoded pairs and nothing else, so it
/// detects a length read from the wrong place — which is the mistake that
/// would otherwise produce plausible-looking garbage rather than an error.
#[test]
fn a_set_that_does_not_add_up_to_its_declared_size_is_refused() {
    let area = pair(0, b"colour", b"blue");
    let honest = declared_size(&[(b"user.colour", b"blue")]);
    for wrong in [honest - 1, honest + 1] {
        let (img, at) = image(&area, &[(0, 1, wrong)]);
        let (dev, sb, table) = mount(img, at);
        assert!(
            matches!(
                read_set(&dev, &sb, &table, 0, &mut none()),
                Err(Error::BadMetadata(_))
            ),
            "a set declaring {wrong} instead of {honest} was accepted"
        );
    }
}

#[test]
fn a_zero_length_value_is_read_as_a_value() {
    let area = pair(0, b"flag", b"");
    let (img, at) = image(&area, &[(0, 1, declared_size(&[(b"user.flag", b"")]))]);
    let (dev, sb, table) = mount(img, at);
    let got = read_set(&dev, &sb, &table, 0, &mut none()).unwrap();
    assert_eq!(got[0].name, b"user.flag");
    assert!(got[0].value.is_empty());
}

#[test]
fn an_index_past_the_table_is_refused() {
    let area = pair(0, b"x", b"v");
    let (img, at) = image(&area, &[(0, 1, 9)]);
    let (dev, sb, table) = mount(img, at);
    assert_eq!(table.len(), 1);
    assert!(matches!(
        read_set(&dev, &sb, &table, 1, &mut none()),
        Err(Error::BadMetadata(_))
    ));
}

/// `count` is a `u32` with nothing in the format bounding it, and it sizes
/// a `Vec` before a single pair has been read.
#[test]
fn an_absurd_count_is_refused_before_anything_is_reserved() {
    let area = pair(0, b"x", b"v");
    let (img, at) = image(&area, &[(0, u32::MAX, u32::MAX)]);
    let (dev, sb, table) = mount(img, at);
    assert!(matches!(
        read_set(&dev, &sb, &table, 0, &mut none()),
        Err(Error::BadMetadata(_))
    ));
}

/// `vsize` is a `u32`, so without a ceiling one attribute asks for a four-
/// gigabyte allocation.
#[test]
fn a_value_longer_than_the_format_allows_is_refused() {
    let mut area = Vec::new();
    area.extend_from_slice(&0u16.to_le_bytes());
    area.extend_from_slice(&1u16.to_le_bytes());
    area.push(b'x');
    area.extend_from_slice(&u32::MAX.to_le_bytes());
    let (img, at) = image(&area, &[(0, 1, u32::MAX)]);
    let (dev, sb, table) = mount(img, at);
    assert!(matches!(
        read_set(&dev, &sb, &table, 0, &mut none()),
        Err(Error::BadMetadata(_))
    ));
}

/// An image built with `-no-xattrs` writes the same sentinel every other
/// absent table uses, and absence has to be a normal answer rather than an
/// error.
#[test]
fn an_image_without_a_table_reports_none() {
    let mut sb = Superblock::parse(&synth_sb(17, 0, 0)).unwrap();
    sb.xattr_id_table_start = NO_TABLE;
    let dev = MemDev(Mutex::new(vec![0u8; 96]));
    assert!(read_xattr_table(&dev, &sb).unwrap().is_none());
}

/// The pairs are written before their index, so a `xattr_table_start` at or
/// after the header means every reference points past the data it is
/// supposed to name.
#[test]
fn a_pair_table_starting_after_its_own_index_is_refused() {
    let area = pair(0, b"x", b"v");
    let (mut img, at) = image(&area, &[(0, 1, 9)]);
    // Rewrite the header's table_start to point at the header.
    img[at as usize..at as usize + 8].copy_from_slice(&at.to_le_bytes());
    let mut sb = Superblock::parse(&synth_sb(17, 0, 0)).unwrap();
    sb.xattr_id_table_start = at;
    sb.bytes_used = img.len() as u64;
    let dev = MemDev(Mutex::new(img));
    assert!(matches!(
        read_xattr_table(&dev, &sb),
        Err(Error::BadMetadata(_))
    ));
}

// ---- file data ----

const BLOCK_LOG: u16 = 12;
const BLOCK_SIZE: usize = 1 << BLOCK_LOG;

/// A `Filesystem` over raw bytes.
fn fs_over(bytes: Vec<u8>) -> Filesystem<MemDev> {
    Filesystem::from_parts(
        MemDev(Mutex::new(bytes)),
        Superblock::parse(&synth_sb(BLOCK_LOG, 0, 0)).unwrap(),
        Compressor::Gzip,
        Vec::new(),
        Vec::new(),
        None,
        None,
    )
}

/// A `Filesystem` whose superblock names `directory_table_start`.
fn fs_over_with_dir_table(bytes: Vec<u8>, directory_table_start: u64) -> Filesystem<MemDev> {
    let mut sb_bytes = synth_sb(BLOCK_LOG, 0, 0);
    sb_bytes[0x48..0x50].copy_from_slice(&directory_table_start.to_le_bytes());
    Filesystem::from_parts(
        MemDev(Mutex::new(bytes)),
        Superblock::parse(&sb_bytes).unwrap(),
        Compressor::Gzip,
        Vec::new(),
        Vec::new(),
        None,
        None,
    )
}

/// The directory listing's start is `directory_table_start` plus the
/// inode's `dir_start_block`, and that sum must saturate.
#[test]
fn the_directory_listing_start_saturates_rather_than_wrapping() {
    let mut fs = fs_over_with_dir_table(vec![0u8; 64 * 1024], u64::MAX - 1000);

    let mut dir = file_inode(100, Vec::new());
    dir.inode_type = TYPE_BASIC_DIR;
    dir.dir_start_block = u32::MAX;
    dir.dir_block_offset = 0;

    match fs.read_dir(&dir) {
        Err(Error::Block(BlockError::ShortRead { offset, .. })) => assert_eq!(
            offset,
            u64::MAX,
            "the listing must be sought at the saturated offset, not a wrapped one"
        ),
        other => panic!("expected a short read at u64::MAX, got {other:?}"),
    }
}

/// The same sum with an ordinary pair of addends still adds.
#[test]
fn an_ordinary_directory_listing_start_is_the_sum_of_its_parts() {
    let mut fs = fs_over_with_dir_table(vec![0u8; 64 * 1024], 1000);

    let mut dir = file_inode(100, Vec::new());
    dir.inode_type = TYPE_BASIC_DIR;
    dir.dir_start_block = 24;
    dir.dir_block_offset = 0;

    // 1024 is inside the 64 KiB buffer, so the read reaches the
    // device and fails on the zeros there rather than on its offset.
    match fs.read_dir(&dir) {
        Err(Error::Block(BlockError::ShortRead { offset, .. })) => {
            panic!("expected the read to reach offset 1024, but it short-read at {offset}")
        }
        Err(_) => {}
        Ok(_) => panic!("a listing of zeros should not parse"),
    }
}

/// A regular-file inode whose data blocks start at offset 0.
fn file_inode(file_size: u64, block_sizes: Vec<u32>) -> Inode {
    Inode {
        inode_type: TYPE_BASIC_FILE,
        permissions: 0o644,
        uid_idx: 0,
        gid_idx: 0,
        mtime: 0,
        inode_number: 1,
        nlink: 1,
        file_size,
        rdev: 0,
        dir_start_block: 0,
        dir_block_offset: 0,
        blocks_start: 0,
        fragment_index: SQUASHFS_INVALID_FRAG,
        fragment_offset: 0,
        block_sizes,
        symlink_target: Vec::new(),
        xattr_index: SQUASHFS_INVALID_XATTR,
    }
}

/// A directory's listing decompresses out of metadata blocks, so its length
/// is not bounded by the image: `mksquashfs` on a directory of two thousand
/// files produces a 41049-byte listing inside a 20480-byte image.
#[test]
fn a_listing_longer_than_the_image_still_reads_and_still_terminates() {
    let mut fs = fs_over(vec![0u8; 64 * 1024]);

    let mut dir = file_inode(0, Vec::new());
    dir.inode_type = TYPE_BASIC_DIR;
    dir.file_size = u64::from(u32::MAX);

    // The refusal comes from the device running out, not from the
    // declared length -- and it comes back rather than hanging or
    // allocating four gigabytes.
    let why = format!("{:?}", fs.read_dir(&dir).err());
    assert!(
        !why.contains("longer than the filesystem"),
        "a listing longer than the image was refused on its declared length: {why}"
    );
    assert!(why != "None", "a 4 GiB listing in a 64 KiB image succeeded");
}

/// A data block whose declared on-disk size is bigger than the archive's
/// own block size is refused before it is allocated.
#[test]
fn a_data_block_bigger_than_the_archives_block_size_is_refused() {
    let mut fs = fs_over(vec![0u8; 64 * 1024]);
    // 0x00FF_FFFF is the largest the 24-bit field can say, and the
    // archive's blocks are 4 KiB.
    let inode = file_inode(BLOCK_SIZE as u64, vec![0x00FF_FFFF]);
    let mut buf = vec![0u8; BLOCK_SIZE];
    match fs.read_file(&inode, 0, &mut buf) {
        Err(Error::BadInode(m)) => assert!(
            m.contains("on-disk size"),
            "the refusal must name the size word, got {m:?}"
        ),
        other => panic!("expected a refusal naming the size, got {other:?}"),
    }
}

/// The last on-disk size that must still be accepted.
#[test]
fn a_data_block_of_exactly_the_block_size_is_accepted() {
    let payload = vec![0xABu8; BLOCK_SIZE];
    let mut fs = fs_over(payload.clone());
    // Bit 24 set = stored uncompressed, so the bytes come back as
    // they are and the test does not depend on a codec.
    let size_word = BLOCK_SIZE as u32 | DATA_UNCOMPRESSED_BIT;
    let inode = file_inode(BLOCK_SIZE as u64, vec![size_word]);
    let mut buf = vec![0u8; BLOCK_SIZE];
    let n = fs
        .read_file(&inode, 0, &mut buf)
        .expect("a full-size uncompressed block is legal");
    assert_eq!(n, BLOCK_SIZE);
    assert_eq!(buf, payload);
}

#[test]
fn short_data_block_is_an_error_not_a_short_read() {
    // A *well-formed* zlib stream that decodes to far fewer bytes than
    // the block it stands in. No codec can catch this — the stream is
    // valid and ends cleanly — so the only place that can is the read
    // path, which knows how long the block is supposed to be.
    let stream = zlib(b"short");
    let mut img = stream.clone();
    img.resize(BLOCK_SIZE, 0); // the rest of the on-disk block slot
    let mut fs = fs_over(img);
    // Size word: low 24 bits = on-disk length, bit 24 clear = compressed.
    let inode = file_inode(BLOCK_SIZE as u64, vec![stream.len() as u32]);

    let mut buf = vec![0u8; BLOCK_SIZE];
    match fs.read_file(&inode, 0, &mut buf) {
        Err(e) => assert!(matches!(e, Error::BadInode(_)), "{e:?}"),
        Ok(n) => panic!(
            "corrupt data block reported as a successful short read of \
             {n} bytes (file is {BLOCK_SIZE} bytes)"
        ),
    }
}

#[test]
fn whole_blocks_still_read_back_intact() {
    // The guard above must not reject a healthy file: one full block
    // plus a partial last block, which is the shape every non-fragment
    // file has.
    let payload: Vec<u8> = (0..BLOCK_SIZE + 100).map(|i| (i % 251) as u8).collect();
    let first = zlib(&payload[..BLOCK_SIZE]);
    let last = zlib(&payload[BLOCK_SIZE..]);
    let mut img = first.clone();
    img.extend_from_slice(&last);
    let mut fs = fs_over(img);
    let inode = file_inode(
        payload.len() as u64,
        vec![first.len() as u32, last.len() as u32],
    );

    let mut buf = vec![0u8; payload.len()];
    let n = fs.read_file(&inode, 0, &mut buf).unwrap();
    assert_eq!(n, payload.len());
    assert_eq!(buf, payload);
}

// ---- inodes of every shape ----

/// The 16 bytes common to all inodes.
fn inode_head(inode_type: u16) -> Vec<u8> {
    let mut b = Vec::new();
    b.extend_from_slice(&inode_type.to_le_bytes());
    b.extend_from_slice(&0o4755u16.to_le_bytes());
    b.extend_from_slice(&1u16.to_le_bytes());
    b.extend_from_slice(&2u16.to_le_bytes());
    b.extend_from_slice(&1_700_000_000u32.to_le_bytes());
    b.extend_from_slice(&77u32.to_le_bytes());
    b
}

fn words(list: &[u32]) -> Vec<u8> {
    list.iter().flat_map(|w| w.to_le_bytes()).collect()
}

/// Read the inode that `body` follows the common header of.
fn inode_from(inode_type: u16, body: &[u8]) -> Result<Inode, Error> {
    let mut raw = vec![0xEEu8; 5];
    raw.extend(inode_head(inode_type));
    raw.extend_from_slice(body);
    // Two blocks, so that the record runs over a boundary.
    let cut = 5 + 19.min(raw.len() - 5);
    let mut img = vec![0u8; 40];
    img.extend(emit_meta(&raw[..cut]));
    if cut < raw.len() {
        img.extend(emit_meta(&raw[cut..]));
    }
    let mut sb = Superblock::parse(&synth_sb(12, 0, 10)).unwrap();
    sb.bytes_used = img.len() as u64;
    Inode::read(&MemDevice::new(img), &sb, (30 << 16) | 5, &mut none())
}

#[test]
fn every_inode_shape_is_read() {
    // A basic directory.
    let mut body = words(&[9, 3]);
    body.extend_from_slice(&30u16.to_le_bytes());
    body.extend_from_slice(&12u16.to_le_bytes());
    body.extend(words(&[1]));
    let i = inode_from(1, &body).unwrap();
    assert_eq!((i.permissions, i.uid_idx, i.gid_idx), (0o4755, 1, 2));
    assert_eq!((i.mtime, i.inode_number), (1_700_000_000, 77));
    assert_eq!((i.dir_start_block, i.nlink, i.file_size), (9, 3, 30));
    assert_eq!((i.dir_block_offset, i.has_xattrs()), (12, false));

    // An extended directory.
    let mut body = words(&[4, 70_000, 8, 1]);
    body.extend_from_slice(&0u16.to_le_bytes());
    body.extend_from_slice(&13u16.to_le_bytes());
    body.extend(words(&[6]));
    let i = inode_from(8, &body).unwrap();
    assert_eq!((i.nlink, i.file_size, i.dir_start_block), (4, 70_000, 8));
    assert_eq!((i.dir_block_offset, i.xattr_index), (13, 6));

    // A basic file of two blocks and a fragment.
    let i = inode_from(2, &words(&[96, 5, 100, 9000, 1000, 2000])).unwrap();
    assert_eq!((i.blocks_start, i.fragment_index), (96, 5));
    assert_eq!((i.fragment_offset, i.file_size), (100, 9000));
    assert_eq!((i.block_sizes.clone(), i.nlink), (vec![1000, 2000], 1));

    // An extended file of three blocks.
    let mut body = Vec::new();
    body.extend_from_slice(&0x1_0000_0000u64.to_le_bytes());
    body.extend_from_slice(&9000u64.to_le_bytes());
    body.extend_from_slice(&0u64.to_le_bytes());
    body.extend(words(&[2, u32::MAX, 0, 3, 11, 22, 33]));
    let i = inode_from(9, &body).unwrap();
    assert_eq!((i.blocks_start, i.file_size), (0x1_0000_0000, 9000));
    assert_eq!((i.nlink, i.xattr_index), (2, 3));
    assert_eq!(i.block_sizes, vec![11, 22, 33]);

    // Symlinks.
    let mut body = words(&[1, 6]);
    body.extend_from_slice(b"target");
    let i = inode_from(3, &body).unwrap();
    assert_eq!((i.symlink_target.as_slice(), i.file_size), (&b"target"[..], 6));
    assert_eq!(i.xattr_index, SQUASHFS_INVALID_XATTR);
    body.extend(words(&[44]));
    let i = inode_from(10, &body).unwrap();
    assert_eq!((i.symlink_target.as_slice(), i.xattr_index), (&b"target"[..], 44));

    // Devices, pipes and sockets.
    for t in [4, 5] {
        let i = inode_from(t, &words(&[1, 0x0801])).unwrap();
        assert_eq!((i.rdev, i.xattr_index), (0x0801, SQUASHFS_INVALID_XATTR));
    }
    for t in [6, 7] {
        let i = inode_from(t, &words(&[5])).unwrap();
        assert_eq!((i.nlink, i.rdev, i.has_xattrs()), (5, 0, false));
    }
    for t in [13, 14] {
        let i = inode_from(t, &words(&[5, 9])).unwrap();
        assert_eq!((i.nlink, i.rdev, i.xattr_index), (5, 0, 9));
    }
}

#[test]
fn an_extended_device_inode_keeps_rdev_and_its_xattr_index() {
    for t in [11, 12] {
        let i = inode_from(t, &words(&[1, 0x0802, 7])).unwrap();
        assert_eq!((i.nlink, i.rdev, i.xattr_index), (1, 0x0802, 7));
        assert_eq!((i.rdev_major(), i.rdev_minor()), (8, 2));
    }
}

#[test]
fn malformed_inodes_are_named() {
    let why = |t: u16, body: &[u8]| match inode_from(t, body) {
        Err(Error::BadInode(why)) => why,
        other => panic!("expected a refusal, got {other:?}"),
    };
    assert_eq!(why(0, &[0; 40]), "inode type 0");
    assert_eq!(why(15, &[0; 40]), "unknown inode type");
    assert_eq!(why(u16::MAX, &[0; 40]), "unknown inode type");
    assert_eq!(
        why(3, &words(&[1, 65_537])),
        "symlink target exceeds sanity bound"
    );
    let mut body = vec![0u8; 8];
    body.extend_from_slice(&u64::MAX.to_le_bytes());
    body.extend_from_slice(&[0; 24]);
    assert_eq!(why(9, &body), "file block count exceeds sanity bound");
    // A record that the blocks run out under.
    assert!(matches!(
        inode_from(2, &words(&[96, u32::MAX, 0, 9000, 1])),
        Err(Error::Block(BlockError::ShortRead { .. }))
    ));
}

// ---- devices that fail ----

/// A device that serves its first reads and then no more.
struct Failing {
    inner: MemDev,
    left: Mutex<u32>,
}

impl BlockRead for Failing {
    fn read_at(&self, offset: u64, len: usize) -> Result<Vec<u8>, BlockError> {
        let mut left = self.left.lock().unwrap();
        if *left == 0 {
            return Err(BlockError::Other(String::from("unplugged")));
        }
        *left -= 1;
        self.inner.read_at(offset, len)
    }
    fn size_bytes(&self) -> u64 {
        self.inner.size_bytes()
    }
}

/// A failing device is reported as such, and what a cache holds is served
/// without it.
#[test]
fn a_device_failure_is_reported_and_leaves_the_cache_alone() {
    let (img, first, _, second_abs) = two_blocks();
    let dev = Failing {
        inner: MemDev(Mutex::new(img)),
        left: Mutex::new(2),
    };
    let mut cache = MetaCache::new(4);
    assert_eq!(*read_block(&dev, &sb(), 0, &mut cache).unwrap().0, first);
    match read_block(&dev, &sb(), second_abs, &mut cache) {
        Err(Error::Block(BlockError::Other(why))) => assert_eq!(why, "unplugged"),
        other => panic!("expected the device's failure, got {other:?}"),
    }
    assert_eq!(*read_block(&dev, &sb(), 0, &mut cache).unwrap().0, first);
    assert_eq!(cache.stats(), (1, 4, 1, 2));
}

#[test]
fn a_memory_device_serves_what_it_has() {
    let dev = MemDevice::new(vec![1, 2, 3, 4]);
    assert_eq!(dev.size_bytes(), 4);
    assert_eq!(dev.read_at(1, 2).unwrap(), vec![2, 3]);
    assert_eq!(dev.read_at(4, 0).unwrap(), Vec::<u8>::new());
    match dev.read_at(3, 2) {
        Err(BlockError::ShortRead { offset, want, got }) => {
            assert_eq!((offset, want, got), (3, 2, 1))
        }
        other => panic!("{other:?}"),
    }
    match dev.read_at(u64::MAX, usize::MAX) {
        Err(BlockError::ShortRead { offset, want, got }) => {
            assert_eq!((offset, want, got), (u64::MAX, usize::MAX, 0))
        }
        other => panic!("{other:?}"),
    }
}

// ---- cursors ----

#[test]
fn cursor_reads_integers_in_pieces_as_in_one() {
    let bytes: Vec<u8> = (1..=40).collect();
    let mut img = emit_meta_raw(&bytes[..13]);
    img.extend(emit_meta(&bytes[13..]));
    let dev = MemDevice::new(img);
    let s = sb();
    let mut off = none();
    let mut cur = MetaCursor::new(&dev, &s, 0, 0, &mut off).unwrap();
    assert_eq!(cur.read_u16().unwrap(), 0x0201);
    assert_eq!(cur.read_u32().unwrap(), 0x0605_0403);
    assert_eq!(cur.read_u64().unwrap(), 0x0E0D_0C0B_0A09_0807);
    assert_eq!(cur.read_i16().unwrap(), 0x100F);
    assert_eq!(cur.read_exact(0).unwrap(), Vec::<u8>::new());
    assert_eq!(cur.read_exact(24).unwrap(), &bytes[16..]);
    assert!(matches!(
        cur.read_exact(1),
        Err(Error::Block(BlockError::ShortRead { .. }))
    ));

    let img = emit_meta_raw(&[0xFE, 0xFF]);
    let dev = MemDevice::new(img);
    let mut off = none();
    let mut cur = MetaCursor::new(&dev, &s, 0, 0, &mut off).unwrap();
    assert_eq!(cur.read_i16().unwrap(), -2);
}

#[test]
fn malformed_metadata_blocks_are_named() {
    let s = sb();
    let why = |img: Vec<u8>, in_block: u16| {
        let dev = MemDevice::new(img);
        let mut off = none();
        let r = MetaCursor::new(&dev, &s, 0, in_block, &mut off).map(|_| ());
        match r {
            Err(Error::BadMetadata(why)) => why,
            other => panic!("expected a refusal, got {other:?}"),
        }
    };
    let range = "metadata block size out of range";
    assert_eq!(why(vec![0, 0x80], 0), range);
    let mut big = vec![0u8; 9000];
    big[0..2].copy_from_slice(&8193u16.to_le_bytes());
    assert_eq!(why(big, 0), range);
    assert_eq!(
        why(emit_meta(&[1, 2, 3]), 4),
        "metadata reference offset past block end"
    );
    assert_eq!(why(vec![2, 0, 9, 9], 0), "zlib decompression failed");

    // A block that decompresses to nothing ends a record.
    let mut img = emit_meta(&[1, 2, 3]);
    img.extend(emit_meta(&[]));
    let dev = MemDevice::new(img);
    let mut off = none();
    let mut cur = MetaCursor::new(&dev, &s, 0, 3, &mut off).unwrap();
    assert!(matches!(
        cur.read_exact(1),
        Err(Error::BadMetadata("empty metadata block while reading record"))
    ));

    // An offset next to the end of what a u64 can say.
    let dev = MemDevice::new(vec![0u8; 16]);
    for abs in [u64::MAX, u64::MAX - 1, u64::MAX - 2] {
        match read_block(&dev, &s, abs, &mut none()) {
            Err(Error::Block(BlockError::ShortRead { offset, .. })) => assert_eq!(offset, abs),
            other => panic!("{other:?}"),
        }
    }

    // A compressor that nobody knows.
    let mut unknown = sb();
    unknown.compression_id = 9;
    let dev = MemDevice::new(emit_meta(&[1]));
    assert!(matches!(
        read_block(&dev, &unknown, 0, &mut none()),
        Err(Error::UnsupportedCompression(9))
    ));
    let dev = MemDevice::new(emit_meta_raw(&[1]));
    assert_eq!(*read_block(&dev, &unknown, 0, &mut none()).unwrap().0, vec![1]);
}

// ---- the cache ----

#[test]
fn the_least_recently_used_block_leaves() {
    let mut cache = BlockCache::new(2);
    let block = |n: u8| Arc::new(vec![n]);
    cache.insert((1, 0), block(1), 10);
    cache.insert((2, 0), block(2), 20);
    assert_eq!(cache.get((1, 0)), Some((block(1), 10)));
    cache.insert((3, 0), block(3), 30);
    assert_eq!(cache.get((2, 0)), None);
    assert_eq!(cache.get((1, 0)), Some((block(1), 10)));
    // The same key again replaces its block and pushes out no other.
    cache.insert((1, 0), block(9), 11);
    assert_eq!(cache.get((1, 0)), Some((block(9), 11)));
    assert_eq!(cache.get((3, 0)), Some((block(3), 30)));
    assert_eq!(cache.get((1, 7)), None);
    assert_eq!(cache.stats(), (2, 2, 4, 2));
    cache.set_capacity(3);
    assert_eq!(cache.stats(), (0, 3, 0, 0));
}

// ---- tables of entries ----

/// An image with an indirect table of `entries`, whose blocks are full but
/// for the last.
fn table_image(entries: &[u8]) -> (Vec<u8>, u64) {
    let mut img = vec![0u8; 96];
    let mut starts = Vec::new();
    for chunk in entries.chunks(8192) {
        starts.push(img.len() as u64);
        img.extend(emit_meta(chunk));
    }
    let at = img.len() as u64;
    for s in starts {
        img.extend_from_slice(&s.to_le_bytes());
    }
    (img, at)
}

#[test]
fn ids_and_fragments_are_read_across_blocks() {
    let ids: Vec<u32> = (0..3000).map(|i| i * 7 + 1).collect();
    let (img, at) = table_image(&words(&ids));
    let mut s = sb();
    s.id_count = 3000;
    s.id_table_start = at;
    s.bytes_used = img.len() as u64;
    assert_eq!(read_id_table(&MemDevice::new(img.clone()), &s).unwrap(), ids);
    // One byte less room, and the pointers do not fit.
    s.bytes_used -= 1;
    assert!(matches!(
        read_id_table(&MemDevice::new(img.clone()), &s),
        Err(Error::BadMetadata(
            "indirect table declares more blocks than it has room for"
        ))
    ));
    s.bytes_used += 1;
    s.id_count = 3073;
    assert!(matches!(
        read_id_table(&MemDevice::new(img), &s),
        Err(Error::BadMetadata("indirect table shorter than expected"))
    ));

    let mut raw = Vec::new();
    for i in 0..600u64 {
        raw.extend_from_slice(&(i << 33).to_le_bytes());
        raw.extend(words(&[i as u32 * 3, 0xDEAD]));
    }
    let (img, at) = table_image(&raw);
    let mut s = sb();
    s.fragment_entry_count = 600;
    s.fragment_table_start = at;
    s.bytes_used = img.len() as u64;
    let frags = read_fragment_table(&MemDevice::new(img), &s).unwrap();
    assert_eq!(frags.len(), 600);
    assert_eq!((frags[599].start, frags[599].size), (599 << 33, 1797));
}

#[test]
fn exports_are_looked_up_across_blocks() {
    let mut raw = Vec::new();
    for i in 0..2500u64 {
        raw.extend_from_slice(&(i * 1_000_003).to_le_bytes());
    }
    let (img, at) = table_image(&raw);
    let mut s = sb();
    s.inode_count = 2500;
    s.export_table_start = at;
    s.bytes_used = img.len() as u64;
    let dev = MemDevice::new(img);
    let table = read_export_table(&dev, &s).unwrap().unwrap();
    let mut cache = MetaCache::new(4);
    for n in [1u32, 2, 1024, 1025, 2048, 2049, 2500] {
        assert_eq!(
            table.lookup(&dev, &s, n, &mut cache).unwrap(),
            (n as u64 - 1) * 1_000_003,
            "inode {n}"
        );
    }
    assert!(matches!(
        table.lookup(&dev, &s, 2501, &mut cache),
        Err(Error::NotFound)
    ));
    // Three blocks, each read once.
    assert_eq!(cache.stats(), (3, 4, 4, 3));

    // A block shorter than its place in the table calls for.
    s.inode_count = 2600;
    let table = read_export_table(&dev, &s).unwrap().unwrap();
    assert!(matches!(
        table.lookup(&dev, &s, 2501, &mut cache),
        Err(Error::BadMetadata(
            "export table entry runs past its metadata block"
        ))
    ));
}

// ---- file data ----

fn read_error(fs: &mut Filesystem<MemDev>, inode: &Inode, at: u64, n: usize) -> Error {
    let mut buf = vec![0u8; n];
    fs.read_file(inode, at, &mut buf).unwrap_err()
}

#[test]
fn sparse_blocks_read_as_zeros() {
    let payload = vec![0x5Au8; BLOCK_SIZE];
    let mut fs = fs_over(payload.clone());
    let stored = BLOCK_SIZE as u32 | DATA_UNCOMPRESSED_BIT;
    let inode = file_inode(3 * BLOCK_SIZE as u64 + 10, vec![0, stored, 0, 0]);
    let mut buf = vec![0xFFu8; 4 * BLOCK_SIZE];
    let n = fs.read_file(&inode, 0, &mut buf).unwrap();
    assert_eq!(n, 3 * BLOCK_SIZE + 10);
    assert!(buf[..BLOCK_SIZE].iter().all(|&b| b == 0));
    assert_eq!(&buf[BLOCK_SIZE..2 * BLOCK_SIZE], &payload[..]);
    assert!(buf[2 * BLOCK_SIZE..n].iter().all(|&b| b == 0));
    assert!(buf[n..].iter().all(|&b| b == 0xFF), "past the end of the file");
}

#[test]
fn reads_end_where_the_file_ends() {
    let payload: Vec<u8> = (0..200u8).collect();
    let mut fs = fs_over(payload.clone());
    let inode = file_inode(200, vec![200 | DATA_UNCOMPRESSED_BIT]);
    let mut buf = vec![7u8; 50];
    assert_eq!(fs.read_file(&inode, 200, &mut buf).unwrap(), 0);
    assert_eq!(fs.read_file(&inode, u64::MAX, &mut buf).unwrap(), 0);
    assert_eq!(fs.read_file(&inode, 0, &mut []).unwrap(), 0);
    assert_eq!(buf, vec![7u8; 50]);
    assert_eq!(fs.read_file(&inode, 180, &mut buf).unwrap(), 20);
    assert_eq!(&buf[..20], &payload[180..]);
    assert_eq!(&buf[20..], &[7u8; 30]);
}

#[test]
fn malformed_files_are_named() {
    let mut fs = fs_over(vec![0u8; 64 * 1024]);
    let mut inode = file_inode(10, vec![]);
    assert!(matches!(read_error(&mut fs, &inode, 0, 5), Error::OutOfRange));
    inode.fragment_index = 0;
    assert!(matches!(
        read_error(&mut fs, &inode, 0, 5),
        Error::BadInode("fragment index out of range")
    ));
    inode.inode_type = TYPE_BASIC_DIR;
    assert!(matches!(
        read_error(&mut fs, &inode, 0, 5),
        Error::BadInode("read_file on non-file")
    ));
    let long = 20 | DATA_UNCOMPRESSED_BIT;
    let inode = file_inode(10, vec![long]);
    assert!(matches!(
        read_error(&mut fs, &inode, 0, 5),
        Error::BadInode("uncompressed data block exceeds block size")
    ));
    let mut inode = file_inode(10, vec![10 | DATA_UNCOMPRESSED_BIT]);
    inode.blocks_start = u64::MAX;
    match read_error(&mut fs, &inode, 0, 5) {
        Error::Block(BlockError::ShortRead { offset, .. }) => assert_eq!(offset, u64::MAX),
        other => panic!("{other:?}"),
    }
    // The second block's offset leaves a u64, and stops at its end.
    let stored = BLOCK_SIZE as u32 | DATA_UNCOMPRESSED_BIT;
    let mut inode = file_inode(2 * BLOCK_SIZE as u64, vec![stored, stored]);
    inode.blocks_start = u64::MAX - 100;
    match read_error(&mut fs, &inode, BLOCK_SIZE as u64, 5) {
        Error::Block(BlockError::ShortRead { offset, .. }) => assert_eq!(offset, u64::MAX),
        other => panic!("{other:?}"),
    }
    let link = fs.read_symlink_target(&inode);
    assert!(matches!(
        link,
        Err(Error::BadInode("read_symlink_target on non-symlink"))
    ));
}

/// Two blocks that share their place but not their encoding are told apart.
#[test]
fn the_data_cache_tells_encodings_apart() {
    let mut img: Vec<u8> = (0..=255u8).cycle().take(BLOCK_SIZE).collect();
    let packed = zlib(&[0xAB; 100]);
    img[..packed.len()].copy_from_slice(&packed);
    let mut fs = fs_over(img.clone());
    let compressed = file_inode(100, vec![packed.len() as u32]);
    let stored = file_inode(
        packed.len() as u64,
        vec![packed.len() as u32 | DATA_UNCOMPRESSED_BIT],
    );
    let mut a = vec![0u8; 100];
    let mut b = vec![0u8; packed.len()];
    for _ in 0..2 {
        assert_eq!(fs.read_file(&compressed, 0, &mut a).unwrap(), 100);
        assert_eq!(a, vec![0xAB; 100]);
        assert_eq!(fs.read_file(&stored, 0, &mut b).unwrap(), packed.len());
        assert_eq!(b, packed);
    }
    // The same stream in a longer file is too short for its place.
    let longer = file_inode(101, vec![packed.len() as u32]);
    assert!(matches!(
        read_error(&mut fs, &longer, 0, 5),
        Error::BadInode("data block decoded to the wrong length")
    ));
}
