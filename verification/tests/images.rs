//! Whole images, built in memory and read back.

use std::collections::BTreeMap;
use std::io::Cursor;
use std::sync::Mutex;

use flate2::{Compress, Compression, FlushCompress};
use fs_squashfs::capi::{
    dir_open, dir_entry_to_abi, file_open, fill_attr, getxattr, list_names, readlink, stat,
    stat_ino, volume_info, xattrs_at, AbiError,
};
use fs_squashfs::decompress::Compressor;
use fs_squashfs::device::{BlockRead, MemDevice};
use fs_squashfs::dir::DirEntry;
use fs_squashfs::error::{BlockError, Error};
use fs_squashfs::fs::{device_cache, Filesystem};
use fs_squashfs::inode::{Inode, TYPE_BASIC_BLKDEV, TYPE_BASIC_CHRDEV};
use fs_squashfs::ls::{basename, child_path, entry_line, show_entry, tree_entry, tree_line};
use fs_squashfs::superblock::SQUASHFS_MAGIC;
use fs_squashfs::table::{DATA_UNCOMPRESSED_BIT, NO_TABLE};
use fs_squashfs::xattr::SQUASHFS_INVALID_XATTR;

// ---- a small image writer ----

#[derive(Clone)]
enum Node {
    Dir(Vec<(String, Node)>),
    File(Vec<u8>),
    Symlink(String),
    Device(u16, u32),
    /// A file with the set of attributes at this index.
    Tagged(Vec<u8>, u32),
}

fn dir(entries: Vec<(&str, Node)>) -> Node {
    Node::Dir(
        entries
            .into_iter()
            .map(|(n, c)| (n.to_string(), c))
            .collect(),
    )
}

fn file(b: &[u8]) -> Node {
    Node::File(b.to_vec())
}

fn symlink(t: &str) -> Node {
    Node::Symlink(t.to_string())
}

/// Deterministic pseudo-random bytes.
fn pattern(len: usize) -> Vec<u8> {
    let mut v = Vec::with_capacity(len);
    let mut x: u32 = 0x1234_5678;
    for _ in 0..len {
        x = x.wrapping_mul(1_103_515_245).wrapping_add(12_345);
        v.push((x >> 16) as u8);
    }
    v
}

/// An LZO1X stream of literals alone.
fn lzo_literals(data: &[u8]) -> Vec<u8> {
    let mut out = Vec::new();
    if data.len() >= 4 && data.len() < 19 {
        out.push((data.len() - 3) as u8);
    } else if data.len() >= 19 {
        out.push(0);
        let mut left = data.len() - 18;
        while left > 255 {
            out.push(0);
            left -= 255;
        }
        out.push(left as u8);
    } else {
        out.push((17 + data.len()) as u8);
    }
    out.extend_from_slice(data);
    out.extend_from_slice(&[0x11, 0, 0]);
    out
}

fn pack(comp: u16, data: &[u8]) -> Vec<u8> {
    let mut out = Vec::new();
    match comp {
        1 => {
            let mut enc = Compress::new(Compression::default(), true);
            out = vec![0u8; data.len() + 64];
            enc.compress(data, &mut out, FlushCompress::Finish).unwrap();
            out.truncate(enc.total_out() as usize);
        }
        2 => lzma_rs::lzma_compress(&mut Cursor::new(data), &mut out).unwrap(),
        3 => out = lzo_literals(data),
        4 => lzma_rs::xz_compress(&mut Cursor::new(data), &mut out).unwrap(),
        5 => out = lz4_flex::block::compress(data),
        _ => {
            out = ruzstd::encoding::compress_to_vec(
                Cursor::new(data),
                ruzstd::encoding::CompressionLevel::Fastest,
            )
        }
    }
    out
}

/// A run of metadata blocks under construction.
struct Meta {
    comp: u16,
    out: Vec<u8>,
    pending: Vec<u8>,
    starts: Vec<u64>,
}

impl Meta {
    fn new(comp: u16) -> Meta {
        Meta {
            comp,
            out: Vec::new(),
            pending: Vec::new(),
            starts: Vec::new(),
        }
    }

    /// Append a record. Returns the reference to it.
    fn put(&mut self, b: &[u8]) -> u64 {
        let at = ((self.out.len() as u64) << 16) | self.pending.len() as u64;
        self.pending.extend_from_slice(b);
        while self.pending.len() >= 8192 {
            let rest = self.pending.split_off(8192);
            self.emit();
            self.pending = rest;
        }
        at
    }

    fn emit(&mut self) {
        self.starts.push(self.out.len() as u64);
        let packed = pack(self.comp, &self.pending);
        if packed.len() < self.pending.len() {
            self.out
                .extend_from_slice(&(packed.len() as u16).to_le_bytes());
            self.out.extend_from_slice(&packed);
        } else {
            self.out
                .extend_from_slice(&(self.pending.len() as u16 | 0x8000).to_le_bytes());
            self.out.extend_from_slice(&self.pending);
        }
        self.pending.clear();
    }

    fn finish(mut self) -> (Vec<u8>, Vec<u64>) {
        if !self.pending.is_empty() {
            self.emit();
        }
        (self.out, self.starts)
    }
}

/// How an image is written.
#[derive(Clone)]
struct Options {
    comp: u16,
    block_log: u16,
    exports: bool,
    /// Sets of attributes: (prefix index, name, value).
    sets: Vec<Vec<(u16, &'static str, Vec<u8>)>>,
}

fn gzip() -> Options {
    Options {
        comp: 1,
        block_log: 12,
        exports: true,
        sets: Vec::new(),
    }
}

struct Writer {
    opt: Options,
    data: Vec<u8>,
    fragment: Vec<u8>,
    fragments: Vec<(u64, u32)>,
    inodes: Meta,
    dirs: Meta,
    refs: Vec<u64>,
}

impl Writer {
    fn store(&mut self, raw: &[u8]) -> u32 {
        let packed = pack(self.opt.comp, raw);
        if packed.len() < raw.len() {
            self.data.extend_from_slice(&packed);
            packed.len() as u32
        } else {
            self.data.extend_from_slice(raw);
            raw.len() as u32 | DATA_UNCOMPRESSED_BIT
        }
    }

    fn flush_fragment(&mut self) {
        if !self.fragment.is_empty() {
            let raw = std::mem::take(&mut self.fragment);
            let at = self.data.len() as u64;
            let word = self.store(&raw);
            self.fragments.push((at, word));
        }
    }

    /// Write an inode. Returns its reference and number.
    fn inode(&mut self, t: u16, mode: u16, body: &[u8]) -> (u64, u32) {
        let number = self.refs.len() as u32 + 1;
        let mut b = Vec::new();
        b.extend_from_slice(&t.to_le_bytes());
        b.extend_from_slice(&mode.to_le_bytes());
        b.extend_from_slice(&0u16.to_le_bytes());
        b.extend_from_slice(&1u16.to_le_bytes());
        b.extend_from_slice(&1_600_000_000u32.to_le_bytes());
        b.extend_from_slice(&number.to_le_bytes());
        b.extend_from_slice(body);
        let at = self.inodes.put(&b);
        self.refs.push(at);
        (at, number)
    }

    fn file(&mut self, bytes: &[u8], xattr: Option<u32>) -> (u64, u32, u16) {
        let bs = 1usize << self.opt.block_log;
        let start = self.data.len() as u64;
        let mut sizes = Vec::new();
        let full = bytes.len() / bs * bs;
        for block in bytes[..full].chunks(bs) {
            if block.iter().all(|&b| b == 0) {
                sizes.push(0);
            } else {
                sizes.push(self.store(block));
            }
        }
        let tail = &bytes[full..];
        let (frag, off) = if tail.is_empty() {
            (u32::MAX, 0)
        } else {
            if self.fragment.len() + tail.len() > bs {
                self.flush_fragment();
            }
            let off = self.fragment.len() as u32;
            self.fragment.extend_from_slice(tail);
            (self.fragments.len() as u32, off)
        };
        let mut body = Vec::new();
        if let Some(x) = xattr {
            body.extend_from_slice(&start.to_le_bytes());
            body.extend_from_slice(&(bytes.len() as u64).to_le_bytes());
            body.extend_from_slice(&0u64.to_le_bytes());
            for w in [1, frag, off, x] {
                body.extend_from_slice(&w.to_le_bytes());
            }
        } else {
            for w in [start as u32, frag, off, bytes.len() as u32] {
                body.extend_from_slice(&w.to_le_bytes());
            }
        }
        for s in sizes {
            body.extend_from_slice(&s.to_le_bytes());
        }
        let t = if xattr.is_some() { 9 } else { 2 };
        let (at, number) = self.inode(t, 0o644, &body);
        (at, number, 2)
    }

    fn node(&mut self, node: &Node) -> (u64, u32, u16) {
        match node {
            Node::File(b) => self.file(b, None),
            Node::Tagged(b, x) => self.file(b, Some(*x)),
            Node::Symlink(t) => {
                let mut body = 1u32.to_le_bytes().to_vec();
                body.extend_from_slice(&(t.len() as u32).to_le_bytes());
                body.extend_from_slice(t.as_bytes());
                let (at, n) = self.inode(3, 0o777, &body);
                (at, n, 3)
            }
            Node::Device(t, rdev) => {
                let mut body = 1u32.to_le_bytes().to_vec();
                body.extend_from_slice(&rdev.to_le_bytes());
                let (at, n) = self.inode(*t, 0o660, &body);
                (at, n, *t)
            }
            Node::Dir(entries) => {
                let mut kids: Vec<(String, u64, u32, u16)> = Vec::new();
                let mut sorted: Vec<&(String, Node)> = entries.iter().collect();
                sorted.sort_by(|a, b| a.0.as_bytes().cmp(b.0.as_bytes()));
                for (name, child) in sorted {
                    let (at, n, t) = self.node(child);
                    kids.push((name.clone(), at, n, t));
                }
                let mut listing = Vec::new();
                let mut i = 0;
                while i < kids.len() {
                    let mut j = i;
                    while j < kids.len()
                        && j - i < 256
                        && kids[j].1 >> 16 == kids[i].1 >> 16
                        && (kids[j].2 as i64 - kids[i].2 as i64).abs() < 32000
                    {
                        j += 1;
                    }
                    listing.extend_from_slice(&((j - i - 1) as u32).to_le_bytes());
                    listing.extend_from_slice(&((kids[i].1 >> 16) as u32).to_le_bytes());
                    listing.extend_from_slice(&kids[i].2.to_le_bytes());
                    for k in &kids[i..j] {
                        listing.extend_from_slice(&(k.1 as u16).to_le_bytes());
                        let delta = (k.2 as i64 - kids[i].2 as i64) as i16;
                        listing.extend_from_slice(&delta.to_le_bytes());
                        listing.extend_from_slice(&k.3.to_le_bytes());
                        listing.extend_from_slice(&(k.0.len() as u16 - 1).to_le_bytes());
                        listing.extend_from_slice(k.0.as_bytes());
                    }
                    i = j;
                }
                let at = self.dirs.put(&listing);
                let (block, off) = ((at >> 16) as u32, at as u16);
                let size = listing.len() as u32 + 3;
                let nlink = 2 + entries.len() as u32;
                let mut body = Vec::new();
                let t = if size > 0xFFFF {
                    for w in [nlink, size, block, 0] {
                        body.extend_from_slice(&w.to_le_bytes());
                    }
                    body.extend_from_slice(&0u16.to_le_bytes());
                    body.extend_from_slice(&off.to_le_bytes());
                    body.extend_from_slice(&SQUASHFS_INVALID_XATTR.to_le_bytes());
                    8
                } else {
                    body.extend_from_slice(&block.to_le_bytes());
                    body.extend_from_slice(&nlink.to_le_bytes());
                    body.extend_from_slice(&(size as u16).to_le_bytes());
                    body.extend_from_slice(&off.to_le_bytes());
                    body.extend_from_slice(&0u32.to_le_bytes());
                    1
                };
                let (at, n) = self.inode(t, 0o755, &body);
                (at, n, 1)
            }
        }
    }
}

/// Append an indirect table's blocks and pointers. Returns where the
/// pointers start.
fn indirect(img: &mut Vec<u8>, comp: u16, entries: &[u8], header: &[u8]) -> u64 {
    let base = img.len() as u64;
    let mut m = Meta::new(comp);
    m.put(entries);
    let (blocks, starts) = m.finish();
    img.extend_from_slice(&blocks);
    let at = img.len() as u64;
    img.extend_from_slice(header);
    for s in starts {
        img.extend_from_slice(&(base + s).to_le_bytes());
    }
    at
}

/// The attribute table: pairs, then the table of sets.
fn write_xattrs(img: &mut Vec<u8>, opt: &Options) -> u64 {
    let base = img.len() as u64;
    let mut pairs = Meta::new(opt.comp);
    let mut ids = Vec::new();
    for set in &opt.sets {
        // A long value stands out of line, in front of its set.
        let mut places = Vec::new();
        for (_, _, value) in set {
            if value.len() > 100 {
                let mut b = (value.len() as u32).to_le_bytes().to_vec();
                b.extend_from_slice(value);
                places.push(Some(pairs.put(&b)));
            } else {
                places.push(None);
            }
        }
        let mut size = 0u32;
        let mut raw = Vec::new();
        for ((prefix, name, value), place) in set.iter().zip(&places) {
            let full = ["user.", "trusted.", "security."][*prefix as usize].len() + name.len();
            size += (full + 1 + value.len()) as u32;
            let flag = if place.is_some() { 0x100 } else { 0 };
            raw.extend_from_slice(&(prefix | flag).to_le_bytes());
            raw.extend_from_slice(&(name.len() as u16).to_le_bytes());
            raw.extend_from_slice(name.as_bytes());
            match place {
                Some(at) => {
                    raw.extend_from_slice(&8u32.to_le_bytes());
                    raw.extend_from_slice(&at.to_le_bytes());
                }
                None => {
                    raw.extend_from_slice(&(value.len() as u32).to_le_bytes());
                    raw.extend_from_slice(value);
                }
            }
        }
        let at = pairs.put(&raw);
        ids.extend_from_slice(&at.to_le_bytes());
        ids.extend_from_slice(&(set.len() as u32).to_le_bytes());
        ids.extend_from_slice(&size.to_le_bytes());
    }
    let (blocks, _) = pairs.finish();
    img.extend_from_slice(&blocks);
    let mut header = base.to_le_bytes().to_vec();
    header.extend_from_slice(&(opt.sets.len() as u32).to_le_bytes());
    header.extend_from_slice(&0u32.to_le_bytes());
    indirect(img, opt.comp, &ids, &header)
}

fn build(opt: &Options, tree: &Node) -> Vec<u8> {
    let mut w = Writer {
        opt: opt.clone(),
        data: vec![0u8; 96],
        fragment: Vec::new(),
        fragments: Vec::new(),
        inodes: Meta::new(opt.comp),
        dirs: Meta::new(opt.comp),
        refs: Vec::new(),
    };
    let (root, _, _) = w.node(tree);
    w.flush_fragment();
    let (inodes, _) = w.inodes.finish();
    let (dirs, _) = w.dirs.finish();
    let mut img = w.data;
    let inode_start = img.len() as u64;
    img.extend_from_slice(&inodes);
    let dir_start = img.len() as u64;
    img.extend_from_slice(&dirs);
    let fragment_start = if w.fragments.is_empty() {
        NO_TABLE
    } else {
        let mut raw = Vec::new();
        for (at, word) in &w.fragments {
            raw.extend_from_slice(&at.to_le_bytes());
            raw.extend_from_slice(&word.to_le_bytes());
            raw.extend_from_slice(&0u32.to_le_bytes());
        }
        indirect(&mut img, opt.comp, &raw, &[])
    };
    let export_start = if opt.exports {
        let raw: Vec<u8> = w.refs.iter().flat_map(|r| r.to_le_bytes()).collect();
        indirect(&mut img, opt.comp, &raw, &[])
    } else {
        NO_TABLE
    };
    let ids: Vec<u8> = [501u32, 20].iter().flat_map(|i| i.to_le_bytes()).collect();
    let id_start = indirect(&mut img, opt.comp, &ids, &[]);
    let xattr_start = if opt.sets.is_empty() {
        NO_TABLE
    } else {
        write_xattrs(&mut img, opt)
    };
    let used = img.len() as u64;
    img[0..4].copy_from_slice(&SQUASHFS_MAGIC.to_le_bytes());
    img[4..8].copy_from_slice(&(w.refs.len() as u32).to_le_bytes());
    img[8..12].copy_from_slice(&1_600_000_001u32.to_le_bytes());
    img[0x0C..0x10].copy_from_slice(&(1u32 << opt.block_log).to_le_bytes());
    img[0x10..0x14].copy_from_slice(&(w.fragments.len() as u32).to_le_bytes());
    img[0x14..0x16].copy_from_slice(&opt.comp.to_le_bytes());
    img[0x16..0x18].copy_from_slice(&opt.block_log.to_le_bytes());
    img[0x18..0x1A].copy_from_slice(&0xC0u16.to_le_bytes());
    img[0x1A..0x1C].copy_from_slice(&2u16.to_le_bytes());
    img[0x1C..0x1E].copy_from_slice(&4u16.to_le_bytes());
    for (at, v) in [
        (0x20, root),
        (0x28, used),
        (0x30, id_start),
        (0x38, xattr_start),
        (0x40, inode_start),
        (0x48, dir_start),
        (0x50, fragment_start),
        (0x58, export_start),
    ] {
        img[at..at + 8].copy_from_slice(&v.to_le_bytes());
    }
    while img.len() % 4096 != 0 {
        img.push(0);
    }
    img
}

// ---- the image most tests read ----

const BIG_LEN: usize = 20000;

fn basic_big_bin() -> Vec<u8> {
    pattern(BIG_LEN)
}

fn basic_tree() -> Node {
    dir(vec![
        ("hello.txt", file(b"hi\n")),
        ("empty.txt", file(b"")),
        ("link", symlink("hello.txt")),
        (
            "sub",
            dir(vec![
                ("note.md", file(b"# note\nsome words here\n")),
                ("deep", dir(vec![("big.bin", file(&basic_big_bin()))])),
            ]),
        ),
    ])
}

fn fixture_bytes() -> Vec<u8> {
    build(&gzip(), &basic_tree())
}

fn open_image(bytes: Vec<u8>) -> Filesystem<MemDevice> {
    match Filesystem::open(MemDevice::new(bytes)) {
        Ok(fs) => fs,
        Err(e) => panic!("open: {}", e.to_string()),
    }
}

fn basic() -> Filesystem<MemDevice> {
    open_image(fixture_bytes())
}

fn read_whole_file<D: BlockRead>(fs: &mut Filesystem<D>, path: &str) -> Vec<u8> {
    let inode = fs.lookup_path(path).unwrap();
    let mut buf = vec![0u8; inode.file_size as usize];
    let n = fs.read_file(&inode, 0, &mut buf).unwrap();
    assert_eq!(n, buf.len());
    buf
}

fn read_window(fs: &mut Filesystem<MemDevice>, path: &str, offset: u64, len: usize) -> Vec<u8> {
    let (inode, room) = file_open(fs, path.as_bytes(), len as u64).unwrap();
    let mut buf = vec![0u8; room];
    let n = fs.read_file(&inode, offset, &mut buf).unwrap();
    buf.truncate(n);
    buf
}

fn names_of(entries: &[DirEntry]) -> Vec<String> {
    let mut v: Vec<String> = entries
        .iter()
        .map(|e| String::from_utf8_lossy(&e.name).into_owned())
        .collect();
    v.sort();
    v
}

#[test]
fn roundtrip_gzip_image() {
    let tree = dir(vec![
        ("hello.txt", file(b"hi\n")),
        ("link", symlink("hello.txt")),
        (
            "sub",
            dir(vec![
                ("note.md", file(b"# note\nsome words here\n")),
                ("deep", dir(vec![("big.bin", file(&pattern(300_000)))])),
            ]),
        ),
    ]);
    let mut opt = gzip();
    opt.block_log = 17;
    let mut fs = open_image(build(&opt, &tree));

    // Root lists the expected names.
    let root = fs.root_inode().unwrap();
    assert!(root.is_dir());
    let entries = fs.read_dir(&root).unwrap();
    assert_eq!(names_of(&entries), vec!["hello.txt", "link", "sub"]);

    // Small file (fragment path).
    let f = fs.lookup_path("/hello.txt").unwrap();
    assert!(f.is_regular_file());
    assert_eq!(f.file_size, 3);
    let mut buf = vec![0u8; 3];
    assert_eq!(fs.read_file(&f, 0, &mut buf).unwrap(), 3);
    assert_eq!(&buf, b"hi\n");

    // Nested file.
    let n = fs.lookup_path("/sub/note.md").unwrap();
    let mut nbuf = vec![0u8; n.file_size as usize];
    fs.read_file(&n, 0, &mut nbuf).unwrap();
    assert_eq!(&nbuf, b"# note\nsome words here\n");

    // Large multi-block file: full content and a mid-file offset read.
    let big = fs.lookup_path("/sub/deep/big.bin").unwrap();
    assert_eq!(big.file_size, 300_000);
    let expect = pattern(300_000);
    let mut full = vec![0u8; 300_000];
    let got = fs.read_file(&big, 0, &mut full).unwrap();
    assert_eq!(got, 300_000);
    assert_eq!(full, expect, "large file content mismatch");
    let mut mid = vec![0u8; 1000];
    fs.read_file(&big, 200_000, &mut mid).unwrap();
    assert_eq!(&mid[..], &expect[200_000..201_000]);

    // Symlink target.
    let l = fs.lookup_path("/link").unwrap();
    assert!(l.is_symlink());
    assert_eq!(fs.read_symlink_target(&l).unwrap(), b"hello.txt");

    // Missing paths surface NotFound.
    assert!(matches!(fs.lookup_path("/nope"), Err(Error::NotFound)));
}

/// The same tree under every compressor.
#[test]
fn every_compressor_reads_back_the_same_tree() {
    for comp in 1..=6 {
        let mut opt = gzip();
        opt.comp = comp;
        let mut fs = open_image(build(&opt, &basic_tree()));
        assert_eq!(fs.compressor(), Compressor::from_id(comp).unwrap());
        assert_eq!(read_whole_file(&mut fs, "/hello.txt"), b"hi\n");
        assert_eq!(
            read_whole_file(&mut fs, "/sub/deep/big.bin"),
            basic_big_bin(),
            "compressor {comp}"
        );
        let link = fs.lookup_path("link").unwrap();
        assert_eq!(fs.read_symlink_target(&link).unwrap(), b"hello.txt");
    }
}

// ---- edges of an ordinary image ----

#[test]
fn empty_file_reads_as_zero_length() {
    let mut fs = basic();
    let inode = fs.lookup_path("/empty.txt").unwrap();
    assert!(inode.is_regular_file());
    assert_eq!(inode.file_size, 0);
    let mut buf = [0u8; 8];
    assert_eq!(fs.read_file(&inode, 0, &mut buf).unwrap(), 0);
}

#[test]
fn deep_path_lookup_on_committed_fixture() {
    let mut fs = basic();
    assert!(fs
        .lookup_path("/sub/deep/big.bin")
        .unwrap()
        .is_regular_file());
    // A path that descends through a regular file must be rejected.
    assert!(fs.lookup_path("/hello.txt/nope").is_err());
}

/// Empty components, separators at the ends and the empty path.
#[test]
fn paths_are_cut_at_separators() {
    let mut fs = basic();
    let want = fs.lookup_path("/sub/note.md").unwrap().inode_number;
    for p in ["sub/note.md", "//sub///note.md", "/sub/note.md/", "sub//note.md//"] {
        assert_eq!(fs.lookup_path(p).unwrap().inode_number, want, "{p}");
        assert_eq!(
            fs.lookup_path_bytes(p.as_bytes()).unwrap().inode_number,
            want
        );
    }
    let root = fs.root_inode().unwrap().inode_number;
    for p in ["", "/", "///"] {
        assert_eq!(fs.lookup_path(p).unwrap().inode_number, root);
    }
    assert!(matches!(
        fs.lookup_path("/hello.txt/"),
        Ok(i) if i.is_regular_file()
    ));
    assert!(matches!(
        fs.lookup_path("/hello.txt/x"),
        Err(Error::NotADirectory)
    ));
    assert!(matches!(
        fs.lookup_path("/link/x"),
        Err(Error::NotADirectory)
    ));
    assert!(matches!(fs.lookup_path("/sub/Note.md"), Err(Error::NotFound)));
    let f = fs.lookup_path("/hello.txt").unwrap();
    assert!(matches!(fs.read_dir(&f), Err(Error::NotADirectory)));
    assert!(matches!(fs.lookup(&f, b"x"), Err(Error::NotADirectory)));
}

// ---- malformed images ----

fn open_classify(bytes: Vec<u8>) -> Option<Error> {
    Filesystem::open(MemDevice::new(bytes)).err()
}

#[test]
fn flipped_magic_is_rejected_no_panic() {
    let mut img = fixture_bytes();
    img[0] ^= 0xFF; // magic at byte 0
    let err = open_classify(img).expect("must error");
    assert!(
        matches!(err, Error::NotSquashfs | Error::BadSuperblock(_)),
        "expected NotSquashfs/BadSuperblock, got {err:?}",
    );
}

#[test]
fn truncated_image_is_rejected_no_panic() {
    let img = vec![0u8; 32]; // far too short for a 96-byte superblock
    assert!(open_classify(img).is_some());
}

#[test]
fn all_zeros_image_is_rejected_no_panic() {
    let img = vec![0u8; 4096];
    let err = open_classify(img).expect("must error");
    assert!(
        matches!(err, Error::NotSquashfs | Error::BadSuperblock(_)),
        "expected NotSquashfs/BadSuperblock for zeros, got {err:?}",
    );
}

#[test]
fn corrupt_block_log_is_rejected_no_panic() {
    let mut img = fixture_bytes();
    img[0x16] = 99; // block_log out of the 12..=20 range
    let err = open_classify(img).expect("must error");
    assert!(
        matches!(err, Error::BadSuperblock(_)),
        "expected BadSuperblock, got {err:?}",
    );
}

#[test]
fn unsupported_compression_id_is_rejected_no_panic() {
    let mut img = fixture_bytes();
    // compression_id at 0x14: 0xFFFF is not a known codec.
    img[0x14..0x16].copy_from_slice(&0xFFFFu16.to_le_bytes());
    let err = open_classify(img).expect("must error");
    assert!(
        matches!(
            err,
            Error::UnsupportedCompression(_) | Error::BadSuperblock(_)
        ),
        "expected UnsupportedCompression, got {err:?}",
    );
}

#[test]
fn corrupt_root_inode_ref_is_handled_no_panic() {
    let mut img = fixture_bytes();
    // root_inode_ref at 0x20: a wildly out-of-range value must error.
    img[0x20..0x28].copy_from_slice(&0xFFFF_FFFF_FFFFu64.to_le_bytes());
    let res = match Filesystem::open(MemDevice::new(img)) {
        Err(e) => Err(e),
        Ok(mut fs) => fs.root_inode().map(|_| ()),
    };
    assert!(res.is_err(), "bad root ref must error");
}

fn patch_u64(img: &mut [u8], at: usize, v: u64) {
    img[at..at + 8].copy_from_slice(&v.to_le_bytes());
}

fn rd_u64(img: &[u8], at: usize) -> u64 {
    u64::from_le_bytes(img[at..at + 8].try_into().unwrap())
}

/// Open must refuse with `BadSuperblock` naming `needle`.
fn assert_refused(img: Vec<u8>, needle: &str) {
    match open_classify(img) {
        Some(Error::BadSuperblock(why)) => assert!(
            why.contains(needle),
            "refused, but for {why:?} rather than for {needle:?}"
        ),
        Some(other) => panic!("expected BadSuperblock naming {needle:?}, got {other:?}"),
        None => panic!("a superblock whose {needle} is a lie opened cleanly"),
    }
}

#[test]
fn bytes_used_beyond_the_device_is_refused() {
    let mut img = fixture_bytes();
    patch_u64(&mut img, 0x28, 1 << 40);
    assert_refused(img, "bytes_used");
}

#[test]
fn an_unknown_minor_version_is_refused() {
    let mut img = fixture_bytes();
    img[0x1E..0x20].copy_from_slice(&1u16.to_le_bytes());
    assert_refused(img, "minor");
}

#[test]
fn a_version_3_superblock_is_refused_as_version_3() {
    let mut img = fixture_bytes();
    img[0x1C..0x1E].copy_from_slice(&3u16.to_le_bytes());
    img[0x16] = 99;
    assert_refused(img, "4.x");
}

#[test]
fn a_table_starting_past_bytes_used_is_refused() {
    let mut img = fixture_bytes();
    patch_u64(&mut img, 0x48, 1 << 40); // directory_table_start
    assert_refused(img, "table");
}

#[test]
fn a_table_starting_inside_the_superblock_is_refused() {
    let mut img = fixture_bytes();
    patch_u64(&mut img, 0x40, 10); // inode_table_start
    assert_refused(img, "table");
}

/// In bounds individually, out of order together: the directory table
/// before the inode table.
#[test]
fn tables_out_of_order_are_refused() {
    let mut img = fixture_bytes();
    let inode_start = rd_u64(&img, 0x40);
    patch_u64(&mut img, 0x48, inode_start - 1); // directory_table_start
    assert_refused(img, "order");
}

/// The root inode's block has to lie inside the inode table.
#[test]
fn a_root_inode_outside_the_inode_table_is_refused() {
    let mut img = fixture_bytes();
    let inode_start = rd_u64(&img, 0x40);
    let dir_start = rd_u64(&img, 0x48);
    let past = (dir_start - inode_start) << 16;
    patch_u64(&mut img, 0x20, past); // root_inode_ref
    assert_refused(img, "root");
}

#[test]
fn the_unpatched_fixture_still_opens() {
    assert!(open_classify(fixture_bytes()).is_none());
}

/// Set one little-endian `u64` field of the superblock.
fn with_sb_u64(mut img: Vec<u8>, off: usize, value: u64) -> Vec<u8> {
    img[off..off + 8].copy_from_slice(&value.to_le_bytes());
    img
}

/// Open the image and try to reach its root directory.
fn walk_root(bytes: Vec<u8>) -> Result<(), Error> {
    let mut fs = Filesystem::open(MemDevice::new(bytes))?;
    let root = fs.root_inode()?;
    fs.read_dir(&root)?;
    Ok(())
}

#[test]
fn an_absurd_inode_table_start_errors_rather_than_overflowing() {
    let img = with_sb_u64(fixture_bytes(), 0x40, 0xffff_ff00_0000_0060);
    let img = with_sb_u64(img, 0x20, 1u64 << 56); // root_inode_ref
    let err = walk_root(img)
        .expect_err("must not resolve a root inode from an offset nothing points at");
    assert!(
        matches!(err, Error::BadSuperblock(_)),
        "expected the superblock to be refused, got {err:?}"
    );
}

#[test]
fn an_absurd_directory_table_start_errors_at_the_offset_it_names() {
    let absurd = u64::MAX - 8;
    let img = with_sb_u64(fixture_bytes(), 0x48, absurd);
    let err = walk_root(img)
        .expect_err("must not read a directory listing from an offset nothing points at");
    assert!(
        matches!(err, Error::BadSuperblock(_)),
        "expected the superblock to be refused, got {err:?}"
    );
}

#[test]
fn the_untouched_fixture_still_mounts_and_lists() {
    walk_root(fixture_bytes()).expect("the fixture is sound");
}

/// Byte offset of `id_count` in the superblock.
const ID_COUNT_OFF: usize = 0x1A;

/// An index past the id table is refused rather than answered as root.
#[test]
fn an_id_index_past_the_table_is_refused_rather_than_answered_as_root() {
    let mut good = basic();
    let inode = good.lookup_path("/hello.txt").unwrap();
    assert_eq!(inode.gid_idx, 1);
    assert_eq!(good.resolve_uid(inode.uid_idx).unwrap(), 501);
    assert_eq!(good.resolve_gid(inode.gid_idx).unwrap(), 20);

    let mut bytes = fixture_bytes();
    bytes[ID_COUNT_OFF..ID_COUNT_OFF + 2].copy_from_slice(&1u16.to_le_bytes());
    let mut short = open_image(bytes);
    let inode = short.lookup_path("/hello.txt").unwrap();
    assert_eq!(
        short.resolve_uid(inode.uid_idx).unwrap(),
        501,
        "the index that is still in range stopped resolving"
    );
    match short.resolve_gid(inode.gid_idx) {
        Err(Error::BadInode(_)) => {}
        other => panic!("a gid index past the table gave {other:?}"),
    }
    assert!(matches!(short.resolve_uid(1), Err(Error::BadInode(_))));
    assert!(matches!(
        fill_attr(&short, &inode),
        Err(Error::BadInode("gid index past the id table"))
    ));
}

/// Every single-byte change and every truncation of an image is survived.
#[test]
fn deterministic_mutations_of_real_images_are_survived() {
    let good = fixture_bytes();
    for at in (0..good.len()).step_by(37) {
        let mut img = good.clone();
        img[at] ^= 0x55;
        if let Ok(mut fs) = Filesystem::open(MemDevice::new(img)) {
            if let Ok(root) = fs.root_inode() {
                let _ = fs.read_dir(&root);
            }
            if let Ok(big) = fs.lookup_path("/sub/deep/big.bin") {
                let mut buf = vec![0u8; 500];
                let _ = fs.read_file(&big, 16_000, &mut buf);
            }
        }
    }
    for len in (0..good.len()).step_by(101) {
        let _ = walk_root(good[..len].to_vec());
    }
}

// ---- large files ----

#[test]
fn committed_big_bin_full_content() {
    let mut fs = basic();
    let got = read_whole_file(&mut fs, "/sub/deep/big.bin");
    assert_eq!(got.len(), BIG_LEN);
    assert_eq!(got, basic_big_bin(), "multi-block + fragment content");
}

#[test]
fn committed_big_bin_offset_reads_at_every_boundary() {
    let mut fs = basic();
    let inode = fs.lookup_path("/sub/deep/big.bin").unwrap();
    let want = basic_big_bin();

    // 4096-byte blocks: probe just-before / on / just-after each boundary,
    // the start of the tail fragment (16384), and mid-fragment.
    for &off in &[
        0usize, 1, 4095, 4096, 4097, 8191, 8192, 12288, 16383, 16384, 16385, 18000, 19999,
    ] {
        let len = 256.min(BIG_LEN - off);
        let mut buf = vec![0u8; len];
        let n = fs.read_file(&inode, off as u64, &mut buf).unwrap();
        assert_eq!(n, len, "short read at offset {off}");
        assert_eq!(buf, &want[off..off + len], "content at offset {off}");
    }
}

#[test]
fn committed_big_bin_read_crossing_block_into_fragment() {
    let mut fs = basic();
    let inode = fs.lookup_path("/sub/deep/big.bin").unwrap();
    let want = basic_big_bin();
    let mut buf = vec![0u8; 1000];
    let n = fs.read_file(&inode, 16000, &mut buf).unwrap();
    assert_eq!(n, 1000);
    assert_eq!(buf, &want[16000..17000]);
}

/// Any cut of a file into pieces gives the file.
#[test]
fn pieces_of_a_file_make_the_file() {
    let mut fs = basic();
    let inode = fs.lookup_path("/sub/deep/big.bin").unwrap();
    let want = basic_big_bin();
    for chunk in [1usize, 7, 499, 4096, 5000, 20001] {
        let mut got = Vec::new();
        while got.len() < BIG_LEN {
            let mut buf = vec![0u8; chunk];
            let n = fs.read_file(&inode, got.len() as u64, &mut buf).unwrap();
            assert!(n > 0);
            got.extend_from_slice(&buf[..n]);
        }
        assert_eq!(got, want, "chunks of {chunk}");
    }
}

#[test]
fn mixed_block_and_fragment_files_gzip() {
    let bs = 128 * 1024;
    let sizes: &[(&str, usize)] = &[
        ("tiny", 5),                 // pure fragment
        ("one_block", bs),           // exactly one full block, no fragment
        ("block_plus_tail", bs + 7), // one full block + tiny fragment
        ("multi", 3 * bs + 1234),    // several blocks + fragment
    ];
    let entries: Vec<(&str, Node)> = sizes
        .iter()
        .map(|(name, sz)| (*name, file(&pattern(*sz))))
        .collect();
    let mut opt = gzip();
    opt.block_log = 17;
    let mut fs = open_image(build(&opt, &dir(entries)));
    for (name, sz) in sizes {
        let got = read_whole_file(&mut fs, &format!("/{name}"));
        assert_eq!(got.len(), *sz, "{name} length");
        assert_eq!(got, pattern(*sz), "{name} content");
    }
}

#[test]
fn holes_in_a_file_read_as_zeros() {
    let mut body = pattern(4096);
    body.extend(vec![0u8; 8192]);
    body.extend(pattern(100));
    let mut fs = open_image(build(&gzip(), &dir(vec![("holes", file(&body))])));
    assert_eq!(fs.lookup_path("/holes").unwrap().block_sizes[1], 0);
    assert_eq!(read_whole_file(&mut fs, "/holes"), body);
}

// ---- many entries, deep trees, long names ----

#[test]
fn many_files_in_one_directory_gzip() {
    let n = 1000;
    let names: Vec<String> = (0..n).map(|i| format!("file_{i:04}")).collect();
    let entries: Vec<(&str, Node)> = names
        .iter()
        .enumerate()
        .map(|(i, name)| (name.as_str(), file(format!("contents-{i}\n").as_bytes())))
        .collect();
    let mut fs = open_image(build(&gzip(), &dir(entries)));
    let root = fs.root_inode().unwrap();
    let listed = fs.read_dir(&root).unwrap();
    assert_eq!(names_of(&listed), names);
    for &i in &[0usize, 1, 42, 500, 999] {
        let got = read_whole_file(&mut fs, &format!("/file_{i:04}"));
        assert_eq!(got, format!("contents-{i}\n").as_bytes(), "file_{i:04}");
    }
}

#[test]
fn deep_directory_chain_gzip() {
    const DEPTH: usize = 20;
    let mut node = dir(vec![("leaf.txt", file(b"bottom\n"))]);
    for level in (0..DEPTH).rev() {
        node = dir(vec![(format!("d{level}").as_str(), node)]);
    }
    let mut fs = open_image(build(&gzip(), &node));
    let mut path = String::new();
    for level in 0..DEPTH {
        path.push_str(&format!("/d{level}"));
    }
    path.push_str("/leaf.txt");
    assert_eq!(read_whole_file(&mut fs, &path), b"bottom\n", "deep leaf");
}

#[test]
fn long_and_unicode_names_gzip() {
    let long_name = "x".repeat(255);
    let tree = dir(vec![
        (long_name.as_str(), file(b"long\n")),
        ("h\u{e9}llo-\u{4e16}\u{754c}.txt", file(b"unicode\n")),
        ("file with spaces.txt", file(b"spaces\n")),
    ]);
    let mut fs = open_image(build(&gzip(), &tree));
    assert_eq!(
        read_whole_file(&mut fs, &format!("/{long_name}")),
        b"long\n"
    );
    assert_eq!(
        read_whole_file(&mut fs, "/h\u{e9}llo-\u{4e16}\u{754c}.txt"),
        b"unicode\n"
    );
    assert_eq!(
        read_whole_file(&mut fs, "/file with spaces.txt"),
        b"spaces\n"
    );
}

#[test]
fn names_of_255_and_256_bytes_list_at_full_length_and_open() {
    let names = ["a".repeat(255), "b".repeat(256)];
    let tree = dir(vec![
        (names[0].as_str(), file(b"255")),
        (names[1].as_str(), file(b"256")),
    ]);
    let mut fs = open_image(build(&gzip(), &tree));
    let listed = dir_open(&mut fs, b"/").unwrap();
    assert_eq!(listed.len(), 2);
    for (de, name) in listed.iter().zip(&names) {
        assert_eq!(usize::from(de.name_len), name.len());
        assert_eq!(&de.name[..name.len()], name.as_bytes());
        assert!(de.name[name.len()..].iter().all(|&b| b == 0));
        let got = read_whole_file(&mut fs, &format!("/{name}"));
        assert_eq!(got, format!("{}", name.len()).as_bytes());
    }
}

#[test]
fn empty_files_and_dirs_gzip() {
    let tree = dir(vec![("none", dir(vec![])), ("zero", file(b""))]);
    let mut fs = open_image(build(&gzip(), &tree));
    let none = fs.lookup_path("/none").unwrap();
    assert!(fs.read_dir(&none).unwrap().is_empty());
    assert!(matches!(fs.lookup_path("/none/x"), Err(Error::NotFound)));
    assert!(read_whole_file(&mut fs, "/zero").is_empty());
    let mut fs = open_image(build(&gzip(), &dir(vec![])));
    let root = fs.root_inode().unwrap();
    assert!(fs.read_dir(&root).unwrap().is_empty());
}

// ---- caches ----

/// A device that counts what it is asked for.
struct Counting {
    inner: MemDevice,
    reads: Mutex<u64>,
}

impl BlockRead for &Counting {
    fn read_at(&self, offset: u64, len: usize) -> Result<Vec<u8>, BlockError> {
        *self.reads.lock().unwrap() += 1;
        self.inner.read_at(offset, len)
    }
    fn size_bytes(&self) -> u64 {
        self.inner.size_bytes()
    }
}

impl Counting {
    fn new(bytes: Vec<u8>) -> Counting {
        Counting {
            inner: MemDevice::new(bytes),
            reads: Mutex::new(0),
        }
    }
    fn reset(&self) {
        *self.reads.lock().unwrap() = 0;
    }
    fn reads(&self) -> u64 {
        *self.reads.lock().unwrap()
    }
}

fn read_in_chunks<D: BlockRead>(fs: &mut Filesystem<D>, inode: &Inode, chunk: usize) -> Vec<u8> {
    let mut out = vec![0u8; inode.file_size as usize];
    let mut done = 0;
    while done < out.len() {
        let end = (done + chunk).min(out.len());
        let n = fs
            .read_file(inode, done as u64, &mut out[done..end])
            .expect("read_file");
        assert!(n > 0, "short read at {done}");
        done += n;
    }
    out
}

#[test]
fn a_file_read_in_small_chunks_decodes_each_block_once() {
    let counting = Counting::new(fixture_bytes());
    let mut fs = Filesystem::open(&counting).expect("open");
    let big = fs.lookup_path("/sub/deep/big.bin").expect("lookup");
    counting.reset();
    // 40 reads of 500 bytes: ten per data block.
    let got = read_in_chunks(&mut fs, &big, 500);
    assert_eq!(got, basic_big_bin(), "wrong bytes");
    let reads = counting.reads();
    assert!(
        reads <= 5,
        "{reads} device reads to read 4 data blocks and 1 fragment in 40 chunks: \
         each chunk decoded its block again"
    );
}

#[test]
fn small_files_sharing_a_fragment_block_decode_it_once() {
    let counting = Counting::new(fixture_bytes());
    let mut fs = Filesystem::open(&counting).expect("open");
    let a = fs.lookup_path("/hello.txt").expect("lookup");
    let b = fs.lookup_path("/sub/note.md").expect("lookup");
    assert!(a.has_fragment() && b.has_fragment());
    assert_eq!(a.fragment_index, b.fragment_index);
    counting.reset();
    assert_eq!(read_in_chunks(&mut fs, &a, 64), b"hi\n");
    assert_eq!(read_in_chunks(&mut fs, &b, 64), b"# note\nsome words here\n");
    let reads = counting.reads();
    assert_eq!(
        reads, 1,
        "{reads} device reads for two files in one fragment block"
    );
}

/// Everything the library will say about one path.
#[derive(Debug, PartialEq, Eq)]
struct Seen {
    path: String,
    inode_number: u32,
    permissions: u16,
    size: u64,
    names: Vec<String>,
    bytes: Vec<u8>,
    symlink: Vec<u8>,
}

fn survey(fs: &mut Filesystem<MemDevice>, at: &str, out: &mut Vec<Seen>) {
    let Ok(inode) = fs.lookup_path(at) else {
        return;
    };
    let mut names = Vec::new();
    let mut bytes = Vec::new();
    let mut symlink = Vec::new();
    if inode.is_dir() {
        for e in fs.read_dir(&inode).expect("read_dir") {
            names.push(String::from_utf8_lossy(&e.name).to_string());
        }
    } else if inode.is_regular_file() {
        bytes = vec![0u8; inode.file_size as usize];
        let n = fs.read_file(&inode, 0, &mut bytes).expect("read_file");
        bytes.truncate(n);
    } else if inode.is_symlink() {
        symlink = fs.read_symlink_target(&inode).expect("readlink");
    }
    out.push(Seen {
        path: at.to_string(),
        inode_number: inode.inode_number,
        permissions: inode.permissions,
        size: inode.file_size,
        names: names.clone(),
        bytes,
        symlink,
    });
    for name in names {
        let child = child_path(at.as_bytes(), name.as_bytes());
        survey(fs, &String::from_utf8(child).unwrap(), out);
    }
}

/// Wide enough that a listing spans several metadata blocks, and deep enough
/// that resolving a leaf reads the same blocks over and over.
fn wide_tree() -> Node {
    let mut top = Vec::new();
    for a in 0..4 {
        let mut mid = Vec::new();
        for b in 0..40 {
            let mut leaf: Vec<(String, Node)> = (0..6)
                .map(|c| {
                    (
                        format!("file-with-a-deliberately-long-name-{b:03}-{c}.bin"),
                        file(&pattern(700 + b * 7 + c)),
                    )
                })
                .collect();
            leaf.push((String::from("link"), symlink("../..")));
            mid.push((
                format!("directory-with-a-deliberately-long-name-{b:03}"),
                Node::Dir(leaf),
            ));
        }
        top.push((format!("top{a}"), Node::Dir(mid)));
    }
    Node::Dir(top)
}

#[test]
fn the_cache_changes_the_speed_and_nothing_else() {
    let image = build(&gzip(), &wide_tree());

    let mut cold = open_image(image.clone());
    cold.set_meta_cache_capacity(0);
    let mut without = Vec::new();
    survey(&mut cold, "/", &mut without);

    let mut warm = open_image(image.clone());
    let mut with = Vec::new();
    survey(&mut warm, "/", &mut with);

    assert!(
        without.len() > 500,
        "the image had only {} paths",
        without.len()
    );
    assert_eq!(without.len(), with.len());
    for (a, b) in without.iter().zip(with.iter()) {
        assert_eq!(a, b, "the cache changed what was reported");
    }
    // A disabled cache reports nothing.
    assert_eq!(cold.meta_cache_stats(), (0, 0, 0, 0));
    let (entries, capacity, hits, misses) = warm.meta_cache_stats();
    assert_eq!(capacity, 256);
    assert!(entries > 1 && entries as u64 == misses, "{entries} {misses}");
    assert!(hits > misses);

    let mut tiny = open_image(image).with_meta_cache_capacity(1);
    let mut again = Vec::new();
    survey(&mut tiny, "/", &mut again);
    assert_eq!(again, with);
    assert_eq!(tiny.meta_cache_stats().1, 1);
}

// ---- inode numbers ----

fn export_tree() -> Node {
    dir(vec![
        ("a.txt", file(b"first\n")),
        ("b.txt", file(b"second\n")),
        ("l", symlink("a.txt")),
        (
            "sub",
            dir(vec![
                ("c.txt", file(b"third\n")),
                ("deep", dir(vec![("d.txt", file(b"fourth\n"))])),
            ]),
        ),
    ])
}

#[test]
fn every_inode_number_resolves_to_the_file_it_names() {
    let mut fs = open_image(build(&gzip(), &export_tree()));
    assert!(fs.is_exportable());
    let mut seen = Vec::new();
    survey(&mut fs, "/", &mut seen);
    assert!(seen.len() >= 7);
    for s in &seen {
        let path = &s.path;
        let by_path = fs.lookup_path(path).expect("lookup by path");
        let by_number = fs
            .read_inode_by_number(by_path.inode_number)
            .expect("resolve");
        assert_eq!(by_number.inode_number, by_path.inode_number, "{path}");
        assert_eq!(by_number.inode_type, by_path.inode_type, "{path}: type");
        assert_eq!(by_number.file_size, by_path.file_size, "{path}: size");
        assert_eq!(by_number.permissions, by_path.permissions, "{path}: mode");
        assert_eq!(by_number.mtime, by_path.mtime, "{path}: mtime");
        assert_eq!(by_number.symlink_target, by_path.symlink_target, "{path}");
    }
}

#[test]
fn a_file_resolved_by_number_reads_the_same_bytes() {
    let mut fs = open_image(build(&gzip(), &export_tree()));
    for (path, want) in [
        ("/a.txt", &b"first\n"[..]),
        ("/b.txt", &b"second\n"[..]),
        ("/sub/c.txt", &b"third\n"[..]),
        ("/sub/deep/d.txt", &b"fourth\n"[..]),
    ] {
        let by_path = fs.lookup_path(path).expect(path);
        let inode = fs
            .read_inode_by_number(by_path.inode_number)
            .expect("resolve");
        let mut buf = vec![0u8; inode.file_size as usize];
        let n = fs.read_file(&inode, 0, &mut buf).expect("read");
        assert_eq!(&buf[..n], want, "{path} read differently by number");
    }
}

#[test]
fn numbers_outside_the_image_are_refused() {
    let mut fs = open_image(build(&gzip(), &export_tree()));
    let count = fs.sb.inode_count;
    assert!(count > 0);
    assert!(matches!(fs.read_inode_by_number(0), Err(Error::NotFound)));
    assert!(fs.read_inode_by_number(count + 1).is_err());
    assert!(fs.read_inode_by_number(u32::MAX).is_err());
    assert!(fs.read_inode_by_number(count).is_ok());
}

#[test]
fn an_image_built_without_exports_says_so_rather_than_guessing() {
    let mut opt = gzip();
    opt.exports = false;
    let mut fs = open_image(build(&opt, &export_tree()));
    assert!(!fs.is_exportable());
    assert!(matches!(
        fs.read_inode_by_number(1),
        Err(Error::NotExportable)
    ));
    assert!(matches!(
        fs.inode_ref_for_number(0),
        Err(Error::NotExportable)
    ));
    // And the same image still resolves paths.
    assert_eq!(read_whole_file(&mut fs, "/a.txt"), b"first\n".to_vec());
    match stat_ino(&mut fs, 1) {
        Err(e) => assert_eq!(e.to_errno(), 45, "expected ENOTSUP"),
        Ok(_) => panic!("resolved a number without a table"),
    }
}

#[test]
fn the_c_surface_resolves_a_number_the_same_way() {
    let mut fs = open_image(build(&gzip(), &export_tree()));
    let by_path = stat(&mut fs, b"/sub/c.txt").unwrap();
    let by_ino = stat_ino(&mut fs, by_path.inode).unwrap();
    assert_eq!(by_ino.inode, by_path.inode);
    assert_eq!(by_ino.size, by_path.size);
    assert_eq!(by_ino.file_type, by_path.file_type);
    assert_eq!(by_ino.mtime, by_path.mtime);
    // Out of range fails as ENOENT rather than as a hardware fault.
    assert_eq!(stat_ino(&mut fs, u32::MAX).unwrap_err().to_errno(), 2);
}

// ---- extended attributes ----

fn long_value() -> Vec<u8> {
    pattern(300)
}

fn xattr_image() -> Vec<u8> {
    let mut opt = gzip();
    opt.sets = vec![
        vec![
            (0, "colour", b"blue".to_vec()),
            (0, "tag", b"x".to_vec()),
        ],
        vec![(0, "big", long_value())],
        vec![
            (2, "label", b"sys".to_vec()),
            (1, "level", b"".to_vec()),
            (0, "big", long_value()),
        ],
    ];
    let tree = dir(vec![
        ("bare.txt", file(b"bare\n")),
        ("two.txt", Node::Tagged(b"two\n".to_vec(), 0)),
        ("twin.txt", Node::Tagged(b"twin\n".to_vec(), 0)),
        ("big.txt", Node::Tagged(b"big\n".to_vec(), 1)),
        ("more.txt", Node::Tagged(b"more\n".to_vec(), 2)),
        ("lost.txt", Node::Tagged(b"lost\n".to_vec(), 9)),
    ]);
    build(&opt, &tree)
}

#[test]
fn two_files_sharing_a_set_both_read_it() {
    let mut fs = open_image(xattr_image());
    for path in ["/two.txt", "/twin.txt"] {
        let inode = fs.lookup_path(path).unwrap();
        let got = fs.list_xattrs(&inode).unwrap();
        assert_eq!(got.len(), 2, "{path}");
        assert_eq!(got[0].name, b"user.colour");
        assert_eq!(got[0].value, b"blue");
        assert_eq!(got[1].name, b"user.tag");
        assert_eq!(got[1].value, b"x");
    }
    assert_eq!(read_whole_file(&mut fs, "/twin.txt"), b"twin\n");
}

#[test]
fn an_out_of_line_value_reads_in_full_from_either_set() {
    let mut fs = open_image(xattr_image());
    for path in ["/big.txt", "/more.txt"] {
        let inode = fs.lookup_path(path).unwrap();
        let got = fs.get_xattr(&inode, b"user.big").unwrap();
        assert_eq!(got, Some(long_value()), "{path}");
    }
}

#[test]
fn the_trusted_and_security_namespaces_are_assembled_correctly() {
    let mut fs = open_image(xattr_image());
    let inode = fs.lookup_path("/more.txt").unwrap();
    let names: Vec<Vec<u8>> = fs
        .list_xattrs(&inode)
        .unwrap()
        .into_iter()
        .map(|e| e.name)
        .collect();
    assert_eq!(
        names,
        vec![
            b"security.label".to_vec(),
            b"trusted.level".to_vec(),
            b"user.big".to_vec()
        ]
    );
}

#[test]
fn absence_is_an_empty_list_and_not_a_failure() {
    let mut fs = open_image(xattr_image());
    let bare = fs.lookup_path("/bare.txt").unwrap();
    assert!(!bare.has_xattrs());
    assert!(fs.list_xattrs(&bare).unwrap().is_empty());
    assert_eq!(fs.get_xattr(&bare, b"user.colour").unwrap(), None);
    // A value of no bytes is a value.
    let more = fs.lookup_path("/more.txt").unwrap();
    assert_eq!(
        fs.get_xattr(&more, b"trusted.level").unwrap(),
        Some(Vec::new())
    );
    // An index that the image does not have is one.
    let lost = fs.lookup_path("/lost.txt").unwrap();
    assert!(matches!(
        fs.list_xattrs(&lost),
        Err(Error::BadMetadata("xattr index past the end of the table"))
    ));
    // And an image without a table has no attributes, whatever the inode
    // says.
    let mut fs = basic();
    let hello = fs.lookup_path("/hello.txt").unwrap();
    let mut claims = hello.clone();
    claims.xattr_index = 0;
    assert!(fs.list_xattrs(&claims).unwrap().is_empty());
}

#[test]
fn getting_one_attribute_agrees_with_listing_them_all() {
    let mut fs = open_image(xattr_image());
    for path in ["/two.txt", "/big.txt", "/more.txt", "/bare.txt"] {
        let inode = fs.lookup_path(path).unwrap();
        for e in fs.list_xattrs(&inode).unwrap() {
            let one = fs.get_xattr(&inode, &e.name).unwrap();
            assert_eq!(one, Some(e.value));
        }
        assert_eq!(fs.get_xattr(&inode, b"user.never-set").unwrap(), None);
    }
}

#[test]
fn the_c_listxattr_probe_agrees_with_the_real_call() {
    let mut fs = open_image(xattr_image());
    let set = xattrs_at(&mut fs, b"/two.txt").unwrap();
    let (nothing, needed) = list_names(&set, 0);
    assert!(nothing.is_empty());
    assert_eq!(needed, b"user.colour\0user.tag\0".len());
    let (all, wrote) = list_names(&set, needed);
    assert_eq!(wrote, needed);
    assert_eq!(all, b"user.colour\0user.tag\0");
    // A buffer too small takes whole names only.
    let (some, got) = list_names(&set, 12);
    assert_eq!(got, needed);
    assert_eq!(some, b"user.colour\0");
    let (none, got) = list_names(&set, 11);
    assert_eq!((none.len(), got), (0, needed));
    let (some, _) = list_names(&set, needed - 1);
    assert_eq!(some, b"user.colour\0");
}

#[test]
fn the_c_getxattr_returns_the_value_and_its_length() {
    let mut fs = open_image(xattr_image());
    assert_eq!(
        getxattr(&mut fs, b"/big.txt", b"user.big").unwrap(),
        long_value()
    );
    let missing = getxattr(&mut fs, b"/big.txt", b"user.never-set").unwrap_err();
    assert_eq!(missing.to_errno(), 2);
    let bare = xattrs_at(&mut fs, b"/bare.txt").unwrap();
    assert_eq!(list_names(&bare, 100), (Vec::new(), 0));
    let nope = xattrs_at(&mut fs, b"/nope.txt").unwrap_err();
    assert_eq!(nope.to_errno(), 2);
}

// ---- what the C interface hands out ----

#[test]
fn volume_info_reports_expected_fields() {
    let fs = basic();
    let info = volume_info(&fs);
    assert_eq!(info.block_size, 4096);
    assert_eq!(info.compression_id, 1, "gzip");
    assert_eq!((info.version_major, info.version_minor), (4, 0));
    assert!(info.inode_count >= 5, "at least 5 inodes");
    assert_eq!(info.bytes_used, fs.sb.bytes_used);
    assert_eq!(&info.compression_name, b"gzip\0\0\0\0\0\0\0\0\0\0\0\0");
    assert_eq!((info.fragment_count, info.id_count), (1, 2));
    assert_eq!((info.mkfs_time, info.flags), (1_600_000_001, 0xC0));
    for (comp, name) in [(2u16, "lzma"), (3, "lzo"), (4, "xz"), (5, "lz4"), (6, "zstd")] {
        let mut opt = gzip();
        opt.comp = comp;
        let fs = open_image(build(&opt, &basic_tree()));
        let info = volume_info(&fs);
        assert_eq!(&info.compression_name[..name.len()], name.as_bytes());
        assert!(info.compression_name[name.len()..].iter().all(|&b| b == 0));
    }
}

#[test]
fn stat_root_is_directory() {
    let mut fs = basic();
    let attr = stat(&mut fs, b"/").unwrap();
    assert_eq!(attr.file_type, 2, "root file_type != DIR");
    assert!(attr.link_count >= 2, "dir link_count >= 2");
}

#[test]
fn stat_regular_file_reports_size() {
    let mut fs = basic();
    let attr = stat(&mut fs, b"/hello.txt").unwrap();
    assert_eq!(attr.file_type, 1, "REG_FILE");
    assert_eq!(attr.size, 3, "\"hi\\n\"");
    assert_eq!((attr.uid, attr.gid, attr.mode), (501, 20, 0o644));
    assert_eq!((attr.mtime, attr.rdev), (1_600_000_000, 0));
}

#[test]
fn stat_empty_file_size_zero() {
    let mut fs = basic();
    let attr = stat(&mut fs, b"/empty.txt").unwrap();
    assert_eq!(attr.file_type, 1, "REG_FILE");
    assert_eq!(attr.size, 0, "empty file");
}

#[test]
fn stat_symlink_classified_as_symlink() {
    let mut fs = basic();
    assert_eq!(stat(&mut fs, b"/link").unwrap().file_type, 7, "SYMLINK");
}

#[test]
fn stat_missing_path_returns_enoent() {
    let mut fs = basic();
    let e = stat(&mut fs, b"/definitely-not-there-987").unwrap_err();
    assert_eq!(e.to_errno(), 2);
    match e {
        AbiError::Fs(e) => assert!(e.to_string().contains("not found")),
        other => panic!("{other:?}"),
    }
}

#[test]
fn dir_open_root_lists_all_entries() {
    let mut fs = basic();
    let mut names = Vec::new();
    for de in dir_open(&mut fs, b"/").unwrap() {
        let end = de.name.iter().position(|&b| b == 0).unwrap();
        assert_eq!(usize::from(de.name_len), end);
        names.push(String::from_utf8_lossy(&de.name[..end]).into_owned());
    }
    names.sort();
    assert_eq!(names, vec!["empty.txt", "hello.txt", "link", "sub"]);
}

#[test]
fn dir_next_returns_correct_file_types() {
    let mut fs = basic();
    let mut by_name = BTreeMap::new();
    for de in dir_open(&mut fs, b"/").unwrap() {
        let name = String::from_utf8_lossy(&de.name[..usize::from(de.name_len)]).into_owned();
        by_name.insert(name, de.file_type);
    }
    assert_eq!(by_name.get("hello.txt"), Some(&1u8), "REG_FILE");
    assert_eq!(by_name.get("sub"), Some(&2u8), "DIR");
    assert_eq!(by_name.get("link"), Some(&7u8), "SYMLINK");
}

#[test]
fn dir_open_on_file_is_enotdir() {
    let mut fs = basic();
    assert_eq!(dir_open(&mut fs, b"/hello.txt").unwrap_err().to_errno(), 20);
}

#[test]
fn dir_open_missing_is_enoent() {
    let mut fs = basic();
    assert_eq!(dir_open(&mut fs, b"/no-such-dir").unwrap_err().to_errno(), 2);
}

/// A name that no listing can hold is cut so that its end can be found.
#[test]
fn an_overlong_name_is_cut() {
    let de = dir_entry_to_abi(&DirEntry {
        name: vec![b'n'; 300],
        inode_ref: 0,
        type_id: 1,
        inode_number: 9,
    });
    assert_eq!((de.inode, de.file_type, de.name_len), (9, 2, 256));
    assert_eq!(de.name[255], b'n');
    assert_eq!(de.name[256], 0);
}

#[test]
fn readlink_returns_target() {
    let mut fs = basic();
    assert_eq!(readlink(&mut fs, b"/link", 256).unwrap(), b"hello.txt\0");
    assert_eq!(readlink(&mut fs, b"/link", 10).unwrap(), b"hello.txt\0");
}

#[test]
fn readlink_on_regular_file_is_einval() {
    let mut fs = basic();
    assert_eq!(
        readlink(&mut fs, b"/hello.txt", 256).unwrap_err().to_errno(),
        22
    );
}

#[test]
fn readlink_buffer_too_small_is_erange() {
    let mut fs = basic();
    assert_eq!(readlink(&mut fs, b"/link", 4).unwrap_err().to_errno(), 34);
    assert_eq!(readlink(&mut fs, b"/link", 9).unwrap_err().to_errno(), 34);
}

#[test]
fn read_small_fragment_file_exact_bytes() {
    assert_eq!(read_window(&mut basic(), "/hello.txt", 0, 100), b"hi\n");
}

#[test]
fn read_nested_small_file_exact_bytes() {
    assert_eq!(
        read_window(&mut basic(), "/sub/note.md", 0, 100),
        b"# note\nsome words here\n"
    );
}

#[test]
fn read_multiblock_file_full_matches_pattern() {
    let got = read_window(&mut basic(), "/sub/deep/big.bin", 0, BIG_LEN);
    assert_eq!(got.len(), BIG_LEN, "big.bin length");
    assert_eq!(got, basic_big_bin(), "big.bin full content");
}

#[test]
fn read_from_offset_zero_partial() {
    let want = basic_big_bin();
    let got = read_window(&mut basic(), "/sub/deep/big.bin", 0, 100);
    assert_eq!(got, &want[..100]);
}

#[test]
fn read_mid_file_offset_inside_one_block() {
    let want = basic_big_bin();
    let got = read_window(&mut basic(), "/sub/deep/big.bin", 5000, 1000);
    assert_eq!(got, &want[5000..6000]);
}

#[test]
fn read_spanning_block_boundary() {
    let want = basic_big_bin();
    let got = read_window(&mut basic(), "/sub/deep/big.bin", 4000, 200);
    assert_eq!(got, &want[4000..4200]);
}

#[test]
fn read_spanning_full_blocks_into_fragment_tail() {
    let want = basic_big_bin();
    let got = read_window(&mut basic(), "/sub/deep/big.bin", 16000, 1000);
    assert_eq!(got, &want[16000..17000]);
}

#[test]
fn read_purely_inside_fragment_tail() {
    let want = basic_big_bin();
    let got = read_window(&mut basic(), "/sub/deep/big.bin", 18000, 1000);
    assert_eq!(got, &want[18000..19000]);
}

#[test]
fn read_each_block_boundary_aligned() {
    let mut fs = basic();
    let want = basic_big_bin();
    let mut assembled = Vec::with_capacity(BIG_LEN);
    let mut off = 0u64;
    while (off as usize) < BIG_LEN {
        let chunk = read_window(&mut fs, "/sub/deep/big.bin", off, 4096);
        assert!(!chunk.is_empty(), "unexpected empty read at {off}");
        assembled.extend_from_slice(&chunk);
        off += chunk.len() as u64;
    }
    assert_eq!(assembled, want);
}

#[test]
fn read_at_eof_returns_zero() {
    let got = read_window(&mut basic(), "/sub/deep/big.bin", BIG_LEN as u64, 16);
    assert!(got.is_empty(), "read at EOF must return 0");
}

#[test]
fn read_past_eof_returns_zero() {
    let got = read_window(&mut basic(), "/hello.txt", 9999, 16);
    assert!(got.is_empty(), "read well past EOF must return 0");
}

#[test]
fn read_crossing_eof_is_short() {
    let want = basic_big_bin();
    let got = read_window(&mut basic(), "/sub/deep/big.bin", 19500, 1000);
    assert_eq!(got.len(), 500, "short read clamped to EOF");
    assert_eq!(got, &want[19500..20000]);
}

#[test]
fn read_oversized_length_clamped_to_file_size() {
    let mut fs = basic();
    let (inode, room) = file_open(&mut fs, b"/sub/deep/big.bin", u64::MAX).unwrap();
    assert_eq!(room, BIG_LEN, "clamped read length");
    let mut buf = vec![0u8; room];
    assert_eq!(fs.read_file(&inode, 0, &mut buf).unwrap(), BIG_LEN);
    assert_eq!(buf, basic_big_bin());
}

#[test]
fn read_empty_file_returns_zero() {
    assert!(read_window(&mut basic(), "/empty.txt", 0, 8).is_empty());
}

#[test]
fn read_on_directory_is_einval() {
    let mut fs = basic();
    assert_eq!(file_open(&mut fs, b"/sub", 8).unwrap_err().to_errno(), 22);
}

#[test]
fn read_on_symlink_is_einval() {
    let mut fs = basic();
    assert_eq!(file_open(&mut fs, b"/link", 8).unwrap_err().to_errno(), 22);
}

#[test]
fn read_missing_path_is_enoent() {
    let mut fs = basic();
    assert_eq!(
        file_open(&mut fs, b"/no-such-file", 8)
            .unwrap_err()
            .to_errno(),
        2
    );
}

#[test]
fn rlib_short_read_loop_reassembles() {
    let mut fs = basic();
    let big = fs.lookup_path("/sub/deep/big.bin").unwrap();
    assert_eq!(read_in_chunks(&mut fs, &big, 333), basic_big_bin());
}

// ---- devices and lines ----

#[test]
fn the_api_and_the_c_abi_report_the_device_numbers_unsquashfs_reads() {
    let devices: [(&str, char, u32, u32); 3] = [
        ("loop0", 'b', 7, 0),
        ("null", 'c', 1, 3),
        // A major above 255 needs the high bits of the 12-bit major field.
        ("nvme0n1", 'b', 259, 1),
    ];
    let mut entries: Vec<(&str, Node)> = devices
        .iter()
        .map(|(name, kind, major, minor)| {
            let t = if *kind == 'b' {
                TYPE_BASIC_BLKDEV
            } else {
                TYPE_BASIC_CHRDEV
            };
            (*name, Node::Device(t, (major << 8) | minor))
        })
        .collect();
    entries.push(("readme.txt", file(b"hi\n")));
    let mut fs = open_image(build(&gzip(), &dir(entries)));
    for (name, kind, major, minor) in devices {
        let path = format!("/{name}");
        let inode = fs.lookup_path(&path).expect("lookup device");
        let want_type = match kind {
            'b' => TYPE_BASIC_BLKDEV,
            _ => TYPE_BASIC_CHRDEV,
        };
        assert_eq!(inode.inode_type, want_type, "{path}: inode form");
        let raw = (major << 8) | minor;
        assert_eq!(inode.rdev, raw, "{path}: raw rdev");
        assert_eq!((inode.rdev_major(), inode.rdev_minor()), (major, minor));
        let attr = stat(&mut fs, path.as_bytes()).unwrap();
        assert_eq!(attr.rdev, raw, "{path}: stat rdev");
        // The line shows the numbers where a size would stand.
        let line = String::from_utf8(entry_line(name.as_bytes(), &inode)).unwrap();
        assert_eq!(
            line,
            format!("{kind}0660 {:>10} {name}", format!("{major}, {minor}"))
        );
    }
    // A regular file reports no device number.
    assert_eq!(stat(&mut fs, b"/readme.txt").unwrap().rdev, 0);
}

#[test]
fn lines_show_kind_mode_size_and_target() {
    let mut fs = basic();
    let mut show = |path: &str| {
        let inode = fs.lookup_path(path).unwrap();
        String::from_utf8(entry_line(&basename(path.as_bytes()), &inode)).unwrap()
    };
    assert_eq!(show("/hello.txt"), "-0644          3 hello.txt");
    assert_eq!(show("/sub/deep/big.bin"), "-0644      20000 big.bin");
    assert_eq!(show("/link"), "l0777          9 link -> hello.txt");
    let sub = fs.lookup_path("/sub").unwrap();
    let line = String::from_utf8(entry_line(b"sub", &sub)).unwrap();
    assert_eq!(line, format!("d0755 {:>10} sub", sub.file_size));
    let mut huge = sub.clone();
    huge.inode_type = 7;
    huge.permissions = 0o7777 | 0x8000;
    huge.file_size = 12_345_678_901;
    assert_eq!(
        String::from_utf8(entry_line(b"x", &huge)).unwrap(),
        "s7777 12345678901 x"
    );
}

#[test]
fn names_and_paths_are_taken_apart_and_joined() {
    assert_eq!(basename(b"/sub/deep/big.bin"), b"big.bin");
    assert_eq!(basename(b"/sub/deep//"), b"deep");
    assert_eq!(basename(b"name"), b"name");
    assert_eq!(basename(b"/"), b"/");
    assert_eq!(basename(b""), b"/");
    assert_eq!(child_path(b"/", b"a"), b"/a");
    assert_eq!(child_path(b"/a", b"b"), b"/a/b");
    assert_eq!(child_path(b"", b"b"), b"/b");
    assert_eq!(basename(&child_path(b"/a/b", b"c")), b"c");
}

#[test]
fn a_tree_goes_on_where_there_are_directories() {
    let mut fs = basic();
    let root = fs.root_inode().unwrap();
    let mut shown = Vec::new();
    for e in fs.read_dir(&root).unwrap() {
        let (line, next) = tree_entry(&mut fs, b"/", &e.name, e.inode_ref, 1).unwrap();
        shown.push((
            String::from_utf8(line).unwrap(),
            next.map(|p| String::from_utf8(p).unwrap()),
        ));
    }
    assert_eq!(
        shown,
        vec![
            ("  empty.txt".to_string(), None),
            ("  hello.txt".to_string(), None),
            ("  link".to_string(), None),
            ("  sub/".to_string(), Some("/sub".to_string())),
        ]
    );
    assert_eq!(tree_line(b"x", 0, false), b"x");
    assert_eq!(tree_line(b"x", 2, true), b"    x/");
    let sub = fs.lookup_path("/sub").unwrap();
    let deep = &fs.read_dir(&sub).unwrap()[0];
    let (line, next) = tree_entry(&mut fs, b"/sub", &deep.name, deep.inode_ref, 3).unwrap();
    assert_eq!(line, b"      deep/");
    assert_eq!(next.unwrap(), b"/sub/deep");
    assert!(tree_entry(&mut fs, b"/", b"x", u64::MAX, 0).is_err());
}

#[test]
fn a_listing_shows_the_line_of_each_entry() {
    let mut fs = basic();
    let root = fs.root_inode().unwrap();
    let entries = fs.read_dir(&root).unwrap();
    let hello = show_entry(&mut fs, &entries[1].name, entries[1].inode_ref).unwrap();
    assert_eq!(hello, b"-0644          3 hello.txt");
    let link = show_entry(&mut fs, &entries[2].name, entries[2].inode_ref).unwrap();
    assert_eq!(link, b"l0777          9 link -> hello.txt");
    assert!(show_entry(&mut fs, b"x", u64::MAX).is_err());
}

#[test]
fn a_device_cache_is_sized_in_the_blocks_of_the_image() {
    let dev = MemDevice::new(fixture_bytes());
    assert_eq!(device_cache(&dev, 32).unwrap(), Some((4096, 32)));
    assert_eq!(device_cache(&dev, 0).unwrap(), None);
    // Without a cache nothing is read.
    let zeros = MemDevice::new(vec![0u8; 4096]);
    assert_eq!(device_cache(&zeros, 0).unwrap(), None);
    assert!(matches!(device_cache(&zeros, 1), Err(Error::NotSquashfs)));
    let short = MemDevice::new(vec![0u8; 32]);
    assert!(matches!(
        device_cache(&short, 1),
        Err(Error::Block(BlockError::ShortRead {
            offset: 0,
            want: 96,
            got: 32
        }))
    ));
}

#[test]
fn failures_of_the_c_interface_have_texts_and_errnos() {
    for (e, errno, text) in [
        (AbiError::Fs(Error::NotFound), 2, "not found"),
        (
            AbiError::Listing(Error::BadDirent("x")),
            5,
            "malformed directory: x",
        ),
        (AbiError::NotADirectory, 20, "not a directory"),
        (AbiError::NotARegularFile, 22, "not a regular file"),
        (AbiError::NotASymlink, 22, "not a symlink"),
        (AbiError::BufferTooSmall, 34, "buffer too small"),
        (AbiError::NoAttribute, 2, "no such attribute"),
    ] {
        assert_eq!((e.to_errno(), e.to_string()), (errno, text.to_string()));
    }
}

/// One large file: its whole content, and windows around block boundaries.
fn assert_large_file_round_trip(comp: u16, size: usize) {
    let bytes = pattern(size);
    let mut opt = gzip();
    opt.comp = comp;
    opt.block_log = 17;
    let mut fs = open_image(build(&opt, &dir(vec![("big.bin", file(&bytes))])));
    let inode = fs.lookup_path("/big.bin").unwrap();
    assert_eq!(inode.file_size, size as u64);
    assert_eq!(read_whole_file(&mut fs, "/big.bin"), bytes, "[{comp}]");
    // Reads inside the file, around block boundaries.
    let bs = fs.sb.block_size as usize;
    for &off in &[0usize, 1, bs - 1, bs, bs + 1, 2 * bs, size / 2] {
        if off >= size {
            continue;
        }
        let len = 777.min(size - off);
        let mut buf = vec![0u8; len];
        let n = fs.read_file(&inode, off as u64, &mut buf).unwrap();
        assert_eq!(n, len, "[{comp}] short read at {off}");
        assert_eq!(buf, &bytes[off..off + len], "[{comp}] content at {off}");
    }
}

#[test]
fn large_file_300k_gzip() {
    assert_large_file_round_trip(1, 300_000);
}

#[test]
fn large_file_1m_gzip() {
    assert_large_file_round_trip(1, 1024 * 1024);
}

#[test]
fn large_file_block_aligned_gzip() {
    // Exactly two full blocks: no tail fragment at all.
    assert_large_file_round_trip(1, 2 * 128 * 1024);
}

#[test]
fn large_file_one_byte_over_block_gzip() {
    // One byte past a full block: a tail fragment of one byte.
    assert_large_file_round_trip(1, 128 * 1024 + 1);
}

#[test]
fn large_file_across_all_compressors() {
    for comp in [1, 4, 5, 6, 3] {
        assert_large_file_round_trip(comp, 500 * 1024);
    }
}

#[test]
fn varied_tree_all_compressors() {
    let mut expected: BTreeMap<String, Vec<u8>> = BTreeMap::new();
    expected.insert("/a.txt".into(), b"alpha\n".to_vec());
    expected.insert("/dir/b.bin".into(), pattern(50_000)); // multi-block
    expected.insert("/dir/sub/c.txt".into(), b"charlie\n".to_vec());
    expected.insert("/dir/sub/empty".into(), Vec::new());

    let tree = dir(vec![
        ("a.txt", file(b"alpha\n")),
        (
            "dir",
            dir(vec![
                ("b.bin", file(&pattern(50_000))),
                (
                    "sub",
                    dir(vec![("c.txt", file(b"charlie\n")), ("empty", file(b""))]),
                ),
            ]),
        ),
    ]);
    for comp in [1, 4, 5, 6, 3] {
        let mut opt = gzip();
        opt.comp = comp;
        let mut fs = open_image(build(&opt, &tree));
        for (path, want) in &expected {
            let got = read_whole_file(&mut fs, path);
            assert_eq!(&got, want, "[{comp}] {path}");
        }
    }
}

#[test]
fn rlib_read_file_matches_capi() {
    let mut fs = basic();
    let inode = fs.lookup_path("/sub/deep/big.bin").unwrap();
    assert_eq!(inode.file_size, BIG_LEN as u64);
    let mut buf = vec![0u8; BIG_LEN];
    let n = fs.read_file(&inode, 0, &mut buf).unwrap();
    assert_eq!(n, BIG_LEN);
    assert_eq!(buf, basic_big_bin());

    // Reading at an offset >= size yields 0 (EOF contract).
    let mut tail = [0u8; 8];
    assert_eq!(fs.read_file(&inode, BIG_LEN as u64, &mut tail).unwrap(), 0);
}

/// A device that can be made to fail every read.
struct Failing {
    inner: MemDevice,
    failing: Mutex<bool>,
}

impl BlockRead for &Failing {
    fn read_at(&self, offset: u64, len: usize) -> Result<Vec<u8>, BlockError> {
        if *self.failing.lock().unwrap() {
            return Err(BlockError::Other(String::from("unplugged")));
        }
        self.inner.read_at(offset, len)
    }
    fn size_bytes(&self) -> u64 {
        self.inner.size_bytes()
    }
}

/// What needs no read succeeds, or fails for its own reason, on a device that
/// serves nothing.
#[test]
fn what_needs_no_read_does_not_ask_the_device() {
    let mut opt = gzip();
    opt.exports = false;
    let tree = dir(vec![
        ("holes", file(&[0u8; 8192])),
        ("none", dir(vec![])),
        ("text", file(b"text\n")),
    ]);
    let dev = Failing {
        inner: MemDevice::new(build(&opt, &tree)),
        failing: Mutex::new(false),
    };
    let mut fs = Filesystem::open(&dev).unwrap();
    let root = fs.root_inode().unwrap();
    let holes = fs.lookup_path("/holes").unwrap();
    let none = fs.lookup_path("/none").unwrap();
    let text = fs.lookup_path("/text").unwrap();
    fs.set_meta_cache_capacity(0);
    *dev.failing.lock().unwrap() = true;

    assert!(matches!(fs.read_dir(&root), Err(Error::Block(_))));
    assert!(matches!(fs.read_dir(&text), Err(Error::NotADirectory)));
    assert!(fs.read_dir(&none).unwrap().is_empty());
    assert!(matches!(fs.lookup(&none, b"x"), Err(Error::NotFound)));
    assert!(matches!(
        fs.read_inode_by_number(1),
        Err(Error::NotExportable)
    ));
    assert_eq!(stat_ino(&mut fs, 1).unwrap_err().to_errno(), 45);
    assert!(fs.list_xattrs(&text).unwrap().is_empty());
    assert_eq!(fs.get_xattr(&text, b"user.x").unwrap(), None);
    let mut buf = [9u8; 100];
    assert_eq!(fs.read_file(&holes, 4000, &mut buf).unwrap(), 100);
    assert_eq!(buf, [0u8; 100]);
    assert_eq!(fs.read_file(&text, 5, &mut buf).unwrap(), 0);
    assert_eq!(fs.read_file(&text, 0, &mut []).unwrap(), 0);
    assert!(matches!(
        fs.read_file(&root, 0, &mut buf),
        Err(Error::BadInode(_))
    ));
    assert!(matches!(
        fs.read_file(&text, 0, &mut buf),
        Err(Error::Block(_))
    ));
    assert_eq!(device_cache(&&dev, 0).unwrap(), None);
    assert!(device_cache(&&dev, 1).is_err());
}

/// Numbers that no inode has are refused without a read.
#[test]
fn numbers_out_of_range_do_not_ask_the_device() {
    let dev = Failing {
        inner: MemDevice::new(fixture_bytes()),
        failing: Mutex::new(false),
    };
    let mut fs = Filesystem::open(&dev).unwrap();
    *dev.failing.lock().unwrap() = true;
    assert!(matches!(fs.read_inode_by_number(0), Err(Error::NotFound)));
    assert!(matches!(
        fs.read_inode_by_number(u32::MAX),
        Err(Error::NotFound)
    ));
    assert!(matches!(fs.read_inode_by_number(1), Err(Error::Block(_))));
}

/// Every block that is read is looked for once, and found the next time.
#[test]
fn each_block_is_decoded_once_and_found_after_that() {
    let mut fs = basic();
    assert_eq!(fs.meta_cache_stats(), (0, 256, 0, 0));
    let root = fs.root_inode().unwrap();
    // One block holds all inodes of this image, another all listings.
    assert_eq!(fs.meta_cache_stats(), (1, 256, 0, 1));
    fs.root_inode().unwrap();
    assert_eq!(fs.meta_cache_stats(), (1, 256, 1, 1));
    fs.read_dir(&root).unwrap();
    assert_eq!(fs.meta_cache_stats(), (2, 256, 1, 2));
    // The root, its listing, `sub`, its listing and `note.md`.
    fs.lookup_path("/sub/note.md").unwrap();
    assert_eq!(fs.meta_cache_stats(), (2, 256, 6, 2));
    fs.set_meta_cache_capacity(0);
    fs.lookup_path("/sub/note.md").unwrap();
    assert_eq!(fs.meta_cache_stats(), (0, 0, 0, 0));
}

/// A read that fails leaves what it had copied, and touches nothing behind it.
#[test]
fn a_failed_read_leaves_the_blocks_before_it() {
    let mut fs = basic();
    let mut big = fs.lookup_path("/sub/deep/big.bin").unwrap();
    big.block_sizes[1] = 0xFF_FFFF;
    let mut buf = vec![0xAAu8; 6000];
    assert!(matches!(
        fs.read_file(&big, 100, &mut buf),
        Err(Error::BadInode(_))
    ));
    assert_eq!(buf[..3996], basic_big_bin()[100..4096]);
    assert!(buf[3996..].iter().all(|&b| b == 0xAA));
    // The blocks on either side of it still read.
    let mut one = [0u8; 4096];
    assert_eq!(fs.read_file(&big, 0, &mut one).unwrap(), 4096);
    assert_eq!(one[..], basic_big_bin()[..4096]);
}
