//! The codecs: what blocks decompress to, and what is refused.

use std::io::Cursor;

use flate2::{Compress, Compression, Crc, FlushCompress};
use fs_squashfs::bcj::{decode, Bcj};
use fs_squashfs::decompress::{
    bounded_block, decompress, streamed_block, zlib_block, zstd_block, Compressor,
};
use fs_squashfs::error::Error;
use fs_squashfs::lzo1x;
use fs_squashfs::xz;

fn zlib_compress(data: &[u8]) -> Vec<u8> {
    // `true` here = produce a zlib-wrapped stream.
    let mut enc = Compress::new(Compression::default(), true);
    let mut out = vec![0u8; data.len() + 64];
    enc.compress(data, &mut out, FlushCompress::Finish).unwrap();
    out.truncate(enc.total_out() as usize);
    out
}

/// Deterministic bytes.
fn pattern(n: usize) -> Vec<u8> {
    let mut x: u32 = 12345;
    (0..n)
        .map(|_| {
            x = x.wrapping_mul(1_103_515_245).wrapping_add(12345);
            (x >> 16) as u8
        })
        .collect()
}

fn metadata_error<T: std::fmt::Debug>(r: Result<T, Error>) -> &'static str {
    match r {
        Err(Error::BadMetadata(why)) => why,
        other => panic!("expected a metadata error, got {other:?}"),
    }
}

// ---- dispatch ----

#[test]
fn from_id_maps_known_codecs() {
    assert_eq!(Compressor::from_id(1).unwrap(), Compressor::Gzip);
    assert_eq!(Compressor::from_id(3).unwrap(), Compressor::Lzo);
    assert_eq!(Compressor::from_id(4).unwrap(), Compressor::Xz);
    assert_eq!(Compressor::from_id(5).unwrap(), Compressor::Lz4);
    assert_eq!(Compressor::from_id(6).unwrap(), Compressor::Zstd);
    assert!(matches!(
        Compressor::from_id(99),
        Err(Error::UnsupportedCompression(99))
    ));
}

#[test]
fn all_known_codecs_supported() {
    for c in [
        Compressor::Gzip,
        Compressor::Lzma,
        Compressor::Lzo,
        Compressor::Xz,
        Compressor::Lz4,
        Compressor::Zstd,
    ] {
        assert!(c.is_supported(), "{} should be supported", c.name());
    }
}

#[test]
fn codecs_have_their_names() {
    let names: Vec<&str> = (1..=6)
        .map(|id| Compressor::from_id(id).unwrap().name())
        .collect();
    assert_eq!(names, ["gzip", "lzma", "lzo", "xz", "lz4", "zstd"]);
    assert!(matches!(
        Compressor::from_id(0),
        Err(Error::UnsupportedCompression(0))
    ));
}

#[test]
fn unknown_codec_id_errors() {
    assert!(matches!(
        Compressor::from_id(7),
        Err(Error::UnsupportedCompression(7))
    ));
}

// ---- gzip ----

#[test]
fn gzip_round_trip() {
    let original = b"squashfs metadata block payload, repeated repeated repeated repeated";
    let compressed = zlib_compress(original);
    let out = decompress(Compressor::Gzip, &compressed, 8192).unwrap();
    assert_eq!(&out, original);
}

#[test]
fn malformed_gzip_errors() {
    let err = decompress(Compressor::Gzip, &[0xFF, 0xFF, 0xFF, 0xFF], 64).unwrap_err();
    assert!(matches!(err, Error::BadMetadata(_)));
}

/// A stream that is cut short is an error, never a shorter block.
#[test]
fn a_truncated_gzip_block_is_an_error() {
    let whole = pattern(6000);
    let compressed = zlib_compress(&whole);
    assert_eq!(
        decompress(Compressor::Gzip, &compressed, 8192).unwrap(),
        whole
    );
    for cut in [1, 4, 5, 100, compressed.len() / 2, compressed.len() - 3] {
        let short = &compressed[..compressed.len() - cut];
        assert!(
            decompress(Compressor::Gzip, short, 8192).is_err(),
            "a block {cut} bytes short was accepted"
        );
    }
}

/// One byte too little room is an error as well.
#[test]
fn the_gzip_ceiling_is_exact() {
    let whole = pattern(1000);
    let compressed = zlib_compress(&whole);
    assert_eq!(
        decompress(Compressor::Gzip, &compressed, 1000).unwrap(),
        whole
    );
    assert!(decompress(Compressor::Gzip, &compressed, 999).is_err());
    assert!(decompress(Compressor::Gzip, &compressed, 0).is_err());
}

#[test]
fn each_codec_answer_is_told_apart() {
    assert_eq!(
        metadata_error(zlib_block(None, 9)),
        "zlib decompression failed"
    );
    assert_eq!(
        metadata_error(zlib_block(Some((false, vec![1])), 9)),
        "zlib stream did not finish"
    );
    assert_eq!(
        zlib_block(Some((true, vec![1, 2])), 2).unwrap(),
        vec![1, 2]
    );
    assert_eq!(
        metadata_error(zlib_block(Some((true, vec![1, 2])), 1)),
        "decompressed block exceeds max size"
    );

    assert_eq!(
        metadata_error(bounded_block(None, 3, "lz4 decompression failed")),
        "lz4 decompression failed"
    );
    assert_eq!(
        metadata_error(bounded_block(Some(vec![0; 4]), 3, "unused")),
        "decompressed block exceeds max size"
    );
    assert_eq!(
        bounded_block(Some(vec![7; 3]), 3, "unused").unwrap(),
        vec![7; 3]
    );

    assert_eq!(
        metadata_error(streamed_block((false, vec![7; 3]), 3, "xz decompression failed")),
        "xz decompression failed"
    );
    assert_eq!(
        metadata_error(streamed_block((false, vec![7; 4]), 3, "unused")),
        "decompressed block exceeds max size"
    );
    assert_eq!(
        metadata_error(streamed_block((true, vec![7; 4]), 3, "unused")),
        "decompressed block exceeds max size"
    );
    assert_eq!(
        streamed_block((true, vec![7; 3]), 3, "unused").unwrap(),
        vec![7; 3]
    );

    assert_eq!(
        metadata_error(zstd_block(None, 3)),
        "zstd frame decode init failed"
    );
    assert_eq!(
        metadata_error(zstd_block(Some((false, vec![0; 3])), 3)),
        "zstd decompression failed"
    );
    assert_eq!(
        metadata_error(zstd_block(Some((true, vec![0; 4])), 3)),
        "decompressed block exceeds max size"
    );
    assert_eq!(zstd_block(Some((true, vec![9])), 3).unwrap(), vec![9]);
}

// ---- lz4 ----

#[test]
fn lz4_round_trip() {
    // lz4_flex block format with the size known out-of-band, exactly
    // as SquashFS stores it.
    let original = b"the quick brown fox jumps over the lazy dog".repeat(8);
    let compressed = lz4_flex::block::compress(&original);
    let out = decompress(Compressor::Lz4, &compressed, original.len()).unwrap();
    assert_eq!(out, original);
    assert_eq!(
        metadata_error(decompress(
            Compressor::Lz4,
            &compressed,
            original.len() - 1
        )),
        "lz4 decompression failed"
    );
}

// ---- zstd ----

#[test]
fn zstd_round_trip() {
    let original = b"zstd zstd zstd zstd zstd zstd zstd zstd zstd".repeat(20);
    let compressed = ruzstd::encoding::compress_to_vec(
        Cursor::new(&original),
        ruzstd::encoding::CompressionLevel::Fastest,
    );
    assert_ne!(compressed, original);
    let out = decompress(Compressor::Zstd, &compressed, original.len()).unwrap();
    assert_eq!(out, original);
    assert_eq!(
        metadata_error(decompress(
            Compressor::Zstd,
            &compressed,
            original.len() - 1
        )),
        "decompressed block exceeds max size"
    );
    assert_eq!(
        metadata_error(decompress(Compressor::Zstd, &[1, 2, 3, 4, 5, 6], 64)),
        "zstd frame decode init failed"
    );
    assert!(decompress(
        Compressor::Zstd,
        &compressed[..compressed.len() - 8],
        original.len()
    )
    .is_err());
}

// ---- lzma ----

#[test]
fn lzma_round_trip() {
    let original = b"legacy lzma blocks are decoded too".repeat(9);
    let mut compressed = Vec::new();
    lzma_rs::lzma_compress(&mut Cursor::new(&original), &mut compressed).unwrap();
    assert_ne!(compressed, original);
    let out = decompress(Compressor::Lzma, &compressed, original.len()).unwrap();
    assert_eq!(out, original);
    assert_eq!(
        metadata_error(decompress(
            Compressor::Lzma,
            &compressed,
            original.len() - 1
        )),
        "decompressed block exceeds max size"
    );
    assert_eq!(
        metadata_error(decompress(
            Compressor::Lzma,
            &compressed,
            original.len() - 2
        )),
        "decompressed block exceeds max size"
    );
    assert_eq!(
        metadata_error(decompress(Compressor::Lzma, &[0xFF; 20], 64)),
        "lzma decompression failed"
    );
}

// ---- xz ----

fn xz_compress(data: &[u8]) -> Vec<u8> {
    let mut out = Vec::new();
    lzma_rs::xz_compress(&mut Cursor::new(data), &mut out).unwrap();
    out
}

#[test]
fn xz_round_trip() {
    let original = pattern(5000);
    let compressed = xz_compress(&original);
    assert_ne!(compressed, original);
    let out = decompress(Compressor::Xz, &compressed, original.len()).unwrap();
    assert_eq!(out, original);
    assert_eq!(
        metadata_error(decompress(Compressor::Xz, &compressed, original.len() - 1)),
        "decompressed block exceeds max size"
    );
    assert_eq!(
        metadata_error(decompress(Compressor::Xz, &compressed, 0)),
        "decompressed block exceeds max size"
    );
    assert_eq!(
        metadata_error(decompress(Compressor::Xz, b"not xz at all", 64)),
        "xz decompression failed"
    );
}

/// A stream that holds words of all ones decodes like any other.
#[test]
fn xz_round_trip_of_ones() {
    let original = vec![0xFFu8; 300];
    let compressed = xz_compress(&original);
    assert!(compressed.windows(4).any(|w| w == [0xFF; 4]));
    assert_eq!(
        decompress(Compressor::Xz, &compressed, 300).unwrap(),
        original
    );
    assert!(decompress(Compressor::Xz, &compressed, 299).is_err());
    // What follows the stream is refused, whatever it is.
    let mut longer = compressed.clone();
    longer.extend_from_slice(&[0xFF; 8]);
    assert_eq!(
        metadata_error(decompress(Compressor::Xz, &longer, 300)),
        "xz decompression failed"
    );
}

/// An index that does not add up is refused, also where the footer says that
/// it is as long as can be said.
#[test]
fn an_xz_footer_of_ones_is_refused() {
    let original = pattern(500);
    let good = xz_compress(&original);
    assert!(!xz::has_boundless_index(&good, 500));
    assert_eq!(
        decompress(Compressor::Xz, &good, 500).unwrap(),
        original
    );
    let word = good.len() - 8;
    let mut bad = good.clone();
    bad[word..word + 4].copy_from_slice(&[0xFF; 4]);
    assert!(xz::has_boundless_index(&bad, 500));
    assert_eq!(
        metadata_error(decompress(Compressor::Xz, &bad, 500)),
        "xz decompression failed"
    );
    assert_eq!(
        metadata_error(decompress(Compressor::Xz, &bad, 499)),
        "xz decompression failed"
    );
    // A bound that does not hold the block is met before the footer is.
    assert!(!xz::has_boundless_index(&bad, 499));
    assert_eq!(
        metadata_error(decompress(Compressor::Xz, &bad, 498)),
        "decompressed block exceeds max size"
    );
    let mut other = good.clone();
    other[word] ^= 1;
    assert!(!xz::has_boundless_index(&other, 500));
    assert_eq!(
        metadata_error(decompress(Compressor::Xz, &other, 500)),
        "xz decompression failed"
    );
    // A header, four zeros and a word of ones are no stream.
    let mut stub = good[..12].to_vec();
    stub.extend_from_slice(&[0, 0, 0, 0, 0xFF, 0xFF, 0xFF, 0xFF]);
    assert_eq!(
        metadata_error(decompress(Compressor::Xz, &stub, 16)),
        "xz decompression failed"
    );
    // Nor are they with a whole index behind the header and ones behind it.
    let mut stub = good[..12].to_vec();
    stub.extend_from_slice(&[0, 0, 0, 0, 0x1C, 0xDF, 0x44, 0x21]);
    stub.extend_from_slice(&[0; 4]);
    stub.extend_from_slice(&[0xFF; 4]);
    stub.extend_from_slice(&[0, good[7], 0x59, 0x5A]);
    assert!(xz::has_boundless_index(&stub, 0));
    assert_eq!(
        metadata_error(decompress(Compressor::Xz, &stub, 16)),
        "xz decompression failed"
    );
}

/// Every bound is taken, and bounds that hold a block give the same block.
#[test]
fn any_bound_that_holds_a_block_gives_it() {
    let original = pattern(700);
    let mut lzma = Vec::new();
    lzma_rs::lzma_compress(&mut Cursor::new(&original), &mut lzma).unwrap();
    let zstd = ruzstd::encoding::compress_to_vec(
        Cursor::new(&original),
        ruzstd::encoding::CompressionLevel::Fastest,
    );
    let (filtered_stream, plain) = filtered(0x04, Bcj::X86, 1, None);
    let lzo = {
        let mut out = vec![0u8];
        let mut left = plain.len() - 18;
        while left > 255 {
            out.push(0);
            left -= 255;
        }
        out.push(left as u8);
        out.extend_from_slice(&plain);
        out.extend_from_slice(&[0x11, 0, 0]);
        out
    };
    for (comp, stream, want) in [
        (Compressor::Xz, xz_compress(&original), &original),
        (Compressor::Xz, filtered_stream, &plain),
        (Compressor::Lzma, lzma, &original),
        (Compressor::Zstd, zstd, &original),
        (Compressor::Lzo, lzo, &plain),
    ] {
        let len = want.len();
        for bound in [len, len + 1, 1 << 20, 1 << 30, isize::MAX as usize, usize::MAX] {
            assert_eq!(
                &decompress(comp, &stream, bound).unwrap(),
                want,
                "{comp:?} within {bound}"
            );
        }
        for bound in [0, 1, len / 2, len - 1] {
            assert!(decompress(comp, &stream, bound).is_err(), "{comp:?}");
        }
    }
    let (stream, plain) = filtered(0x04, Bcj::X86, 1, None);
    assert_eq!(xz::decompress(&stream, usize::MAX).unwrap(), plain);
}

/// A block larger than the buffer that decoding starts with.
#[test]
fn a_large_bound_is_grown_into() {
    let original = vec![0x5Au8; xz::FIRST_ROOM + 12345];
    let mut lzma = Vec::new();
    lzma_rs::lzma_compress(&mut Cursor::new(&original), &mut lzma).unwrap();
    let xz = xz_compress(&original);
    for (comp, stream) in [(Compressor::Lzma, &lzma), (Compressor::Xz, &xz)] {
        assert!(decompress(comp, stream, usize::MAX).unwrap() == original);
        assert!(decompress(comp, stream, original.len()).unwrap() == original);
        assert_eq!(
            metadata_error(decompress(comp, stream, original.len() - 1)),
            "decompressed block exceeds max size"
        );
    }
    assert!(xz::decompress(&xz, usize::MAX).unwrap() == original);
}

/// A plain LZMA2 stream is not routed to the filter decoder.
#[test]
fn a_plain_stream_has_no_filters() {
    let stream = xz_compress(b"plain");
    assert!(!xz::has_filters(&stream));
}

fn crc32(data: &[u8]) -> u32 {
    let mut crc = Crc::new();
    crc.update(data);
    crc.sum()
}

fn xz_varint(mut n: u64) -> Vec<u8> {
    let mut out = Vec::new();
    while n >= 0x80 {
        out.push((n as u8) | 0x80);
        n >>= 7;
    }
    out.push(n as u8);
    out
}

/// An LZMA2 payload that stores `data` as it is.
fn lzma2_stored(data: &[u8]) -> Vec<u8> {
    let mut out = Vec::new();
    for (i, chunk) in data.chunks(0x1_0000).enumerate() {
        out.push(if i == 0 { 1 } else { 2 });
        out.extend_from_slice(&((chunk.len() - 1) as u16).to_be_bytes());
        out.extend_from_slice(chunk);
    }
    out.push(0);
    out
}

/// What a hand-built xz stream is made of.
struct Shape {
    check: u8,
    sizes: bool,
    start: Option<u32>,
    filter: Option<u64>,
}

/// One block of an xz stream: `stored` as LZMA2 has it, checked as `plain`.
fn xz_block(shape: &Shape, stored: &[u8], plain: &[u8]) -> Vec<u8> {
    let payload = lzma2_stored(stored);
    let mut flags = if shape.filter.is_some() { 1u8 } else { 0 };
    let mut fields = Vec::new();
    if shape.sizes {
        flags |= 0xC0;
        fields.extend(xz_varint(payload.len() as u64));
        fields.extend(xz_varint(stored.len() as u64));
    }
    if let Some(id) = shape.filter {
        fields.extend(xz_varint(id));
        match shape.start {
            Some(at) => {
                fields.extend(xz_varint(4));
                fields.extend_from_slice(&at.to_le_bytes());
            }
            None => fields.extend(xz_varint(0)),
        }
    }
    fields.extend(xz_varint(0x21));
    fields.extend(xz_varint(1));
    fields.push(0x16);
    let mut header = vec![0u8, flags];
    header.extend(fields);
    while header.len() % 4 != 0 {
        header.push(0);
    }
    header[0] = (header.len() / 4) as u8;
    let sum = crc32(&header);
    header.extend_from_slice(&sum.to_le_bytes());

    let mut block = header;
    block.extend(payload);
    while block.len() % 4 != 0 {
        block.push(0);
    }
    match shape.check {
        1 => block.extend_from_slice(&crc32(plain).to_le_bytes()),
        4 => block.extend_from_slice(&xz::crc64(plain).to_le_bytes()),
        10 => block.extend_from_slice(&[0u8; 32]),
        _ => {}
    }
    block
}

fn xz_stream(shape: &Shape, blocks: &[Vec<u8>]) -> Vec<u8> {
    let mut out = vec![0xFD, b'7', b'z', b'X', b'Z', 0, 0, shape.check];
    let sum = crc32(&out[6..8]);
    out.extend_from_slice(&sum.to_le_bytes());
    for b in blocks {
        out.extend_from_slice(b);
    }
    out.extend_from_slice(&[0, 0, 0, 0]);
    out
}

/// Branch converters in encode direction: the inverse of what is tested.
fn encode_words(start: u32, buf: &mut [u8], conv: fn(u32, u32, [u8; 4]) -> [u8; 4]) {
    for i in (0..buf.len() & !3).step_by(4) {
        let at = start.wrapping_add(i as u32);
        let word = [buf[i], buf[i + 1], buf[i + 2], buf[i + 3]];
        buf[i..i + 4].copy_from_slice(&conv(at, i as u32, word));
    }
}

fn encode_powerpc(at: u32, _i: u32, w: [u8; 4]) -> [u8; 4] {
    let v = u32::from_be_bytes(w);
    if v & 0xFC00_0003 != 0x4800_0001 {
        return w;
    }
    let t = (v & 0x03FF_FFFC).wrapping_add(at);
    (0x4800_0001 | (t & 0x03FF_FFFC)).to_be_bytes()
}

fn encode_arm(at: u32, _i: u32, w: [u8; 4]) -> [u8; 4] {
    if w[3] != 0xEB {
        return w;
    }
    let src = u32::from_le_bytes([w[0], w[1], w[2], 0]) << 2;
    let t = src.wrapping_add(at).wrapping_add(8) >> 2;
    [t as u8, (t >> 8) as u8, (t >> 16) as u8, 0xEB]
}

fn encode_sparc(at: u32, _i: u32, w: [u8; 4]) -> [u8; 4] {
    let v = u32::from_be_bytes(w);
    if v >> 22 != 0x100 && v >> 22 != 0x1FF {
        return w;
    }
    let t = (v << 2).wrapping_add(at) >> 2;
    let back = (0u32.wrapping_sub((t >> 22) & 1) << 22) & 0x3FFF_FFFF | (t & 0x3F_FFFF) | 0x4000_0000;
    back.to_be_bytes()
}

fn encode_armthumb(start: u32, buf: &mut [u8]) {
    let mut i = 0;
    while i + 4 <= buf.len() {
        if buf[i + 1] & 0xF8 == 0xF0 && buf[i + 3] & 0xF8 == 0xF8 {
            let src = (((buf[i + 1] as u32 & 7) << 19)
                | ((buf[i] as u32) << 11)
                | ((buf[i + 3] as u32 & 7) << 8)
                | buf[i + 2] as u32)
                << 1;
            let t = src.wrapping_add(start.wrapping_add(i as u32).wrapping_add(4)) >> 1;
            buf[i + 1] = 0xF0 | ((t >> 19) & 7) as u8;
            buf[i] = (t >> 11) as u8;
            buf[i + 3] = 0xF8 | ((t >> 8) & 7) as u8;
            buf[i + 2] = t as u8;
            i += 2;
        }
        i += 2;
    }
}

fn encode_ia64(start: u32, buf: &mut [u8]) {
    const TABLE: [u8; 32] = [
        0, 0, 0, 0, 0, 0, 0, 0, 0, 0, 0, 0, 0, 0, 0, 0, 4, 4, 6, 6, 0, 0, 7, 7, 4, 4, 0, 0, 4, 4,
        0, 0,
    ];
    for i in (0..buf.len() & !15).step_by(16) {
        let mask = TABLE[(buf[i] & 0x1F) as usize];
        for slot in 0..3 {
            if (mask >> slot) & 1 == 0 {
                continue;
            }
            let bit = 5 + 41 * slot as usize;
            let (byte, res) = (bit / 8, bit % 8);
            let mut instr = 0u64;
            for j in 0..6 {
                instr |= (buf[i + byte + j] as u64) << (8 * j);
            }
            let mut norm = instr >> res;
            if (norm >> 37) & 0xF == 5 && (norm >> 9) & 7 == 0 {
                let mut src = ((norm >> 13) & 0xF_FFFF) as u32;
                src |= (((norm >> 36) & 1) as u32) << 20;
                let t = (src << 4).wrapping_add(start.wrapping_add(i as u32)) >> 4;
                norm &= !(0x8F_FFFFu64 << 13);
                norm |= ((t & 0xF_FFFF) as u64) << 13;
                norm |= ((t & 0x10_0000) as u64) << 16;
                instr &= (1 << res) - 1;
                instr |= norm << res;
                for j in 0..6 {
                    buf[i + byte + j] = (instr >> (8 * j)) as u8;
                }
            }
        }
    }
}

fn encode_x86(start: u32, buf: &mut [u8]) {
    const ALLOWED: [bool; 8] = [true, true, true, false, true, false, false, false];
    const BITS: [u32; 8] = [0, 1, 2, 2, 3, 3, 3, 3];
    let top = |b: u8| b == 0 || b == 0xFF;
    if buf.len() <= 4 {
        return;
    }
    let size = buf.len() - 4;
    let mut prev: i64 = -1;
    let mut mask = 0u32;
    let mut i = 0;
    while i < size {
        if buf[i] & 0xFE != 0xE8 {
            i += 1;
            continue;
        }
        let gap = i as i64 - prev;
        prev = i as i64;
        if gap > 3 {
            mask = 0;
        } else {
            mask = (mask << (gap - 1)) & 7;
            if mask != 0 {
                let b = buf[i + 4 - BITS[mask as usize] as usize];
                if !ALLOWED[mask as usize] || top(b) {
                    mask = (mask << 1) | 1;
                    i += 1;
                    continue;
                }
            }
        }
        if !top(buf[i + 4]) {
            mask = (mask << 1) | 1;
            i += 1;
            continue;
        }
        let mut src = u32::from_le_bytes([buf[i + 1], buf[i + 2], buf[i + 3], buf[i + 4]]);
        let mut dest;
        loop {
            dest = src.wrapping_add(start.wrapping_add(i as u32).wrapping_add(5));
            if mask == 0 {
                break;
            }
            let j = BITS[mask as usize] * 8;
            if !top((dest >> (24 - j)) as u8) {
                break;
            }
            src = dest ^ ((1u32 << (32 - j)) - 1);
        }
        dest &= 0x01FF_FFFF;
        dest |= 0u32.wrapping_sub(dest & 0x0100_0000);
        buf[i + 1..i + 5].copy_from_slice(&dest.to_le_bytes());
        i += 5;
    }
}

fn encode(kind: Bcj, start: u32, plain: &[u8]) -> Vec<u8> {
    let mut buf = plain.to_vec();
    match kind {
        Bcj::X86 => encode_x86(start, &mut buf),
        Bcj::PowerPc => encode_words(start, &mut buf, encode_powerpc),
        Bcj::Ia64 => encode_ia64(start, &mut buf),
        Bcj::Arm => encode_words(start, &mut buf, encode_arm),
        Bcj::ArmThumb => encode_armthumb(start, &mut buf),
        Bcj::Sparc => encode_words(start, &mut buf, encode_sparc),
    }
    buf
}

/// Bytes shaped so that the converter finds much to convert.
fn machine_code(kind: Bcj, n: usize) -> Vec<u8> {
    let mut b = pattern(n);
    match kind {
        Bcj::X86 => {
            for i in (0..n).step_by(7) {
                b[i] = 0xE8 | (b[i] & 1);
            }
            for i in (4..n).step_by(3) {
                b[i] = if b[i] & 1 == 0 { 0 } else { 0xFF };
            }
        }
        Bcj::PowerPc => {
            for i in (0..n - 3).step_by(12) {
                b[i] = 0x48 | (b[i] & 3);
                b[i + 3] = (b[i + 3] & 0xFC) | 1;
            }
        }
        Bcj::Ia64 => {
            for i in (0..n - 15).step_by(16) {
                b[i] = 0x10 | (b[i] & 0xE0);
                // Slot 2 starts at bit 87: opcode 5, and zeros in bits 9 to 11.
                for j in 0..6 {
                    b[i + 10 + j] &= 0x0F;
                }
                b[i + 15] = 0x50;
                b[i + 12] = 0;
            }
        }
        Bcj::Arm => {
            for i in (3..n).step_by(8) {
                b[i] = 0xEB;
            }
        }
        Bcj::ArmThumb => {
            for i in (0..n - 3).step_by(10) {
                b[i + 1] = 0xF0 | (b[i + 1] & 7);
                b[i + 3] = 0xF8 | (b[i + 3] & 7);
            }
        }
        Bcj::Sparc => {
            for i in (0..n - 3).step_by(8) {
                b[i] = 0x40;
                b[i + 1] &= 0x3F;
            }
        }
    }
    b
}

const FILTERS: [(u64, Bcj); 6] = [
    (0x04, Bcj::X86),
    (0x05, Bcj::PowerPc),
    (0x06, Bcj::Ia64),
    (0x07, Bcj::Arm),
    (0x08, Bcj::ArmThumb),
    (0x09, Bcj::Sparc),
];

/// A filtered stream, beside the bytes it was made from.
fn filtered(id: u64, kind: Bcj, check: u8, start: Option<u32>) -> (Vec<u8>, Vec<u8>) {
    let plain = machine_code(kind, 4000);
    let stored = encode(kind, start.unwrap_or(0), &plain);
    let shape = Shape {
        check,
        sizes: check == 4,
        start,
        filter: Some(id),
    };
    let block = xz_block(&shape, &stored, &plain);
    (xz_stream(&shape, &[block]), plain)
}

/// Every converter decodes what was encoded back to the original bytes, and
/// really has something to do: without it the payload differs from the
/// original, and `lzma_rs` alone refuses the stream.
#[test]
fn every_bcj_filter_decodes_liblzma_output() {
    for (id, kind) in FILTERS {
        for (check, start) in [(1, None), (4, None), (0, None), (1, Some(4096))] {
            let name = format!("{kind:?}, check {check}, start {start:?}");
            let (stream, plain) = filtered(id, kind, check, start);
            assert!(xz::has_filters(&stream), "{name}: carries no filter");
            let mut plain_only = Vec::new();
            assert!(
                lzma_rs::xz_decompress(&mut Cursor::new(&stream), &mut plain_only).is_err(),
                "{name}: lzma_rs alone decoded a filtered stream"
            );
            let unconverted = xz::decompress_with(&stream, 1 << 20, false).expect(&name);
            assert_ne!(unconverted, plain, "{name}: the converter changed nothing");
            assert_eq!(
                xz::decompress(&stream, 1 << 20).expect(&name),
                plain,
                "{name}"
            );
            assert_eq!(
                decompress(Compressor::Xz, &stream, 4000).expect(&name),
                plain,
                "{name}"
            );
        }
    }
}

/// A damaged payload fails the block check rather than reading as data.
#[test]
fn a_flipped_byte_fails_the_check() {
    let (stream, _) = filtered(0x04, Bcj::X86, 1, None);
    let mut damaged = stream.to_vec();
    let at = damaged.len() - 40;
    damaged[at] ^= 0x01;
    assert!(
        xz::decompress(&damaged, 1 << 20).is_err(),
        "a damaged stream was accepted"
    );
}

/// The output ceiling holds for a filtered stream as for a plain one.
#[test]
fn a_filtered_block_larger_than_max_out_is_refused() {
    let (stream, plain) = filtered(0x04, Bcj::X86, 1, None);
    assert!(xz::decompress(&stream, plain.len() - 1).is_err());
    assert!(xz::decompress(&stream, plain.len()).is_ok());
}

/// Dense opcodes, where each may be part of the operand of the one before.
#[test]
fn x86_decodes_dense_opcodes() {
    for seed in 0..64usize {
        let mut plain = pattern(600 + seed);
        for (i, b) in plain.iter_mut().enumerate() {
            *b = match (*b as usize + i * seed) % 5 {
                0 => 0xE8,
                1 => 0xE9,
                2 => 0x00,
                3 => 0xFF,
                _ => *b,
            };
        }
        for start in [0u32, 1, 0x1000, u32::MAX - 100] {
            let mut buf = encode(Bcj::X86, start, &plain);
            decode(Bcj::X86, start, &mut buf);
            assert_eq!(buf, plain, "seed {seed}, start {start}");
        }
    }
}

/// Converted instructions, worked out by hand.
#[test]
fn branches_convert_to_known_bytes() {
    // bl 0 at position 4 came from a branch 4 bytes back.
    let mut b = vec![0, 0, 0, 0, 0x48, 0x00, 0x00, 0x01];
    decode(Bcj::PowerPc, 0, &mut b);
    assert_eq!(b, [0, 0, 0, 0, 0x4B, 0xFF, 0xFF, 0xFD]);

    // bl with an absolute word target of 4 at position 0: 16 - 8 bytes on.
    let mut b = vec![4, 0, 0, 0xEB];
    decode(Bcj::Arm, 0, &mut b);
    assert_eq!(b, [2, 0, 0, 0xEB]);

    // call rel32 at position 0 with the absolute target 0x105.
    let mut b = vec![0xE8, 0x05, 0x01, 0x00, 0x00, 0x90];
    decode(Bcj::X86, 0, &mut b);
    assert_eq!(b, [0xE8, 0x00, 0x01, 0x00, 0x00, 0x90]);
    // The last four bytes of a block are never an opcode.
    let mut b = vec![0xE8, 0x05, 0x01, 0x00];
    decode(Bcj::X86, 0, &mut b);
    assert_eq!(b, [0xE8, 0x05, 0x01, 0x00]);

    // call at position 4 with the absolute word target 1.
    let mut b = vec![0, 0, 0, 0, 0x40, 0, 0, 1];
    decode(Bcj::Sparc, 0, &mut b);
    assert_eq!(b, [0, 0, 0, 0, 0x40, 0, 0, 0]);

    // A branch pair at position 0 with the absolute halfword target 2.
    let mut b = vec![0x00, 0xF0, 0x02, 0xF8];
    decode(Bcj::ArmThumb, 0, &mut b);
    assert_eq!(b, [0x00, 0xF0, 0x00, 0xF8]);
}

#[test]
fn filters_that_are_not_there_are_named() {
    let cases = [
        (0x0Au64, "xz: the ARM64 BCJ filter is not implemented"),
        (0x0B, "xz: the RISC-V BCJ filter is not implemented"),
        (0x03, "xz: the delta filter is not implemented"),
        (0x77, "xz: unknown filter in the block's chain"),
        (0x21, "xz: LZMA2 before the end of the chain"),
    ];
    for (id, why) in cases {
        let shape = Shape {
            check: 0,
            sizes: false,
            start: None,
            filter: Some(id),
        };
        let stream = xz_stream(&shape, &[xz_block(&shape, b"abc", b"abc")]);
        assert_eq!(metadata_error(xz::decompress(&stream, 100)), why);
    }
    for (id, kind) in FILTERS {
        assert_eq!(Bcj::from_id(id).unwrap(), kind);
    }
}

/// Rebuild the checksum of the block header at 12 after a change to it.
fn mend_header(stream: &mut [u8]) {
    let len = (stream[12] as usize + 1) * 4;
    let sum = crc32(&stream[12..12 + len - 4]);
    stream[12 + len - 4..12 + len].copy_from_slice(&sum.to_le_bytes());
}

/// Each way a container can be malformed, by name.
#[test]
fn each_malformed_container_is_named() {
    let shape = Shape {
        check: 1,
        sizes: true,
        start: None,
        filter: None,
    };
    let data = b"some data to store";
    let good = xz_stream(&shape, &[xz_block(&shape, data, data)]);
    assert_eq!(xz::decompress(&good, 100).unwrap(), data);
    let header_len = (good[12] as usize + 1) * 4;
    let why = |stream: &[u8]| metadata_error(xz::decompress(stream, 100));

    assert_eq!(why(&good[..11]), "xz: not an xz stream");
    let mut s = good.clone();
    s[0] = 0;
    assert_eq!(why(&s), "xz: not an xz stream");
    let mut s = good.clone();
    s[8] ^= 1;
    assert_eq!(why(&s), "xz: stream header is damaged");
    let mut s = good.clone();
    s[7] = 2;
    let sum = crc32(&s[6..8]);
    s[8..12].copy_from_slice(&sum.to_le_bytes());
    assert_eq!(why(&s), "xz: unknown check type");
    assert_eq!(why(&good[..12]), "xz: stream ends before its index");
    assert_eq!(why(&good[..14]), "xz: block header runs off the stream");
    let mut s = good.clone();
    s[13] ^= 1;
    assert_eq!(why(&s), "xz: block header checksum mismatch");
    let mut s = good.clone();
    s[13] |= 0x04;
    mend_header(&mut s);
    assert_eq!(why(&s), "xz: reserved block flags set");
    let mut s = good.clone();
    s[14] = 0x7F;
    mend_header(&mut s);
    assert_eq!(why(&s), "xz: compressed size runs off the stream");
    let mut s = good.clone();
    s[14] += 1;
    mend_header(&mut s);
    assert_eq!(why(&s), "xz: compressed size disagrees with the payload");
    let mut s = good.clone();
    s[14] -= 1;
    mend_header(&mut s);
    assert_eq!(why(&s), "xz decompression failed");
    let mut s = good.clone();
    s[15] += 1;
    mend_header(&mut s);
    assert_eq!(why(&s), "xz: uncompressed size disagrees with the payload");
    let mut s = good.clone();
    s[16] = 0x22;
    mend_header(&mut s);
    assert_eq!(why(&s), "xz: the chain does not end in LZMA2");
    let mut s = good.clone();
    s[17] = 0x7F;
    mend_header(&mut s);
    assert_eq!(why(&s), "xz: filter properties run off the block header");
    let mut s = good.clone();
    s[12 + header_len - 5] = 1;
    mend_header(&mut s);
    assert_eq!(why(&s), "xz: block header padding is not zero");
    let end = 12 + header_len + lzma2_stored(data).len();
    let mut s = good.clone();
    s[end] = 1;
    assert_eq!(why(&s), "xz: block padding is not zero");
    assert_eq!(why(&good[..end]), "xz: block padding is not zero");
    assert_eq!(why(&good[..end + 4]), "xz: block check runs off the stream");
    let mut s = good.clone();
    let last = s.len() - 5;
    s[last] ^= 1;
    assert_eq!(why(&s), "xz: block CRC32 mismatch");
    assert_eq!(
        metadata_error(xz::decompress(&good, 17)),
        "decompressed block exceeds max size"
    );
    assert_eq!(
        metadata_error(xz::decompress(&good, 16)),
        "xz decompression failed"
    );

    let checked = |check: u8| {
        let shape = Shape {
            check,
            sizes: false,
            start: None,
            filter: None,
        };
        xz_stream(&shape, &[xz_block(&shape, data, b"other")])
    };
    assert_eq!(why(&checked(4)), "xz: block CRC64 mismatch");
    assert_eq!(
        why(&checked(10)),
        "xz: SHA-256 checked blocks are not supported"
    );
    assert_eq!(xz::decompress(&checked(0), 100).unwrap(), data);
}

#[test]
fn a_converter_has_no_or_four_bytes_of_properties_and_is_alone() {
    let shape = Shape {
        check: 0,
        sizes: false,
        start: Some(0),
        filter: Some(0x04),
    };
    let good = xz_stream(&shape, &[xz_block(&shape, b"abc", b"abc")]);
    assert_eq!(xz::decompress(&good, 10).unwrap(), b"abc");
    // Two bytes of properties where four stood: what follows them is read
    // as the next filter.
    let mut s = good.clone();
    s[15] = 3;
    mend_header(&mut s);
    assert_eq!(
        metadata_error(xz::decompress(&s, 10)),
        "xz: BCJ properties are neither empty nor 4 bytes"
    );
    // Three filters, the first two of them converters without properties.
    let mut s = good.clone();
    s[13] = 2;
    s[14..18].copy_from_slice(&[0x04, 0, 0x05, 0]);
    mend_header(&mut s);
    assert_eq!(
        metadata_error(xz::decompress(&s, 10)),
        "xz: more than one filter before LZMA2"
    );
}

/// Blocks follow each other, and share the ceiling.
#[test]
fn blocks_are_joined() {
    let shape = Shape {
        check: 1,
        sizes: false,
        start: None,
        filter: None,
    };
    let blocks = [
        xz_block(&shape, b"first ", b"first "),
        xz_block(&shape, b"second", b"second"),
    ];
    let stream = xz_stream(&shape, &blocks);
    assert_eq!(xz::decompress(&stream, 12).unwrap(), b"first second");
    assert_eq!(
        metadata_error(xz::decompress(&stream, 11)),
        "decompressed block exceeds max size"
    );
}

#[test]
fn varints_are_minimal_and_bounded() {
    let read = |b: &[u8]| {
        let mut at = 0;
        xz::varint(b, &mut at).map(|v| (v, at))
    };
    assert_eq!(read(&[0x05]).unwrap(), (5, 1));
    assert_eq!(read(&[0x00]).unwrap(), (0, 1));
    assert_eq!(read(&[0x80, 0x01, 9]).unwrap(), (128, 2));
    let most = [0xFF, 0xFF, 0xFF, 0xFF, 0xFF, 0xFF, 0xFF, 0xFF, 0x7F];
    assert_eq!(read(&most).unwrap(), ((1 << 63) - 1, 9));
    assert_eq!(
        metadata_error(read(&[0x80])),
        "xz: varint runs off the block header"
    );
    assert_eq!(
        metadata_error(read(&[0x80, 0x00])),
        "xz: varint is not minimally encoded"
    );
    assert_eq!(
        metadata_error(read(&[0x80; 10])),
        "xz: varint longer than nine bytes"
    );
    // A start past the end is refused too, and the position tells how far
    // reading went.
    for (bytes, start, stop) in [
        (&[1u8, 2][..], 2, 2),
        (&[1, 2], 7, 7),
        (&[1, 2], usize::MAX, usize::MAX),
        (&[0x80], 0, 1),
        (&[0x80, 0x00, 5], 0, 2),
        (&[0x80; 12], 1, 10),
    ] {
        let mut at = start;
        assert!(matches!(
            xz::varint(bytes, &mut at),
            Err(Error::BadMetadata(_))
        ));
        assert_eq!(at, stop);
    }
}

/// The check values of the two checksums.
#[test]
fn checksums_have_their_check_values() {
    assert_eq!(xz::crc64(b"123456789"), 0x995D_C9BB_DF19_39FA);
    assert_eq!(xz::crc64(b""), 0);
    assert_eq!(crc32(b"123456789"), 0xCBF4_3926);
}

#[test]
fn only_a_named_chain_has_filters() {
    let (stream, _) = filtered(0x04, Bcj::X86, 1, None);
    assert!(xz::has_filters(&stream));
    assert!(!xz::has_filters(&stream[..13]));
    assert!(!xz::has_filters(&[]));
    let mut other = stream.clone();
    other[1] = 0;
    assert!(!xz::has_filters(&other));
    let mut other = stream.clone();
    other[12] = 0;
    assert!(!xz::has_filters(&other));
}

// ---- lzo ----

/// A literal-only stream: bootstrap byte >= 18 emits (t-17) literals,
/// then the EOS marker.
#[test]
fn literal_only_via_bootstrap() {
    let stream = [21u8, b'a', b'b', b'c', b'd', 0x11, 0x00, 0x00];
    let out = lzo1x::decompress(&stream, 4).unwrap();
    assert_eq!(&out, b"abcd");
}

/// A literal run encoded via the `t < 16` literal bucket (state 0,
/// t = len - 3). 5 literals -> t = 2.
#[test]
fn literal_run_small_bucket() {
    let stream = [2u8, b'h', b'e', b'l', b'l', b'o', 0x11, 0x00, 0x00];
    let out = lzo1x::decompress(&stream, 5).unwrap();
    assert_eq!(&out, b"hello");
}

/// A back-reference that repeats earlier output.
#[test]
fn match_repeats_prior_output() {
    let mut stream = vec![1u8, b'w', b'x', b'y', b'z'];
    // 0 0 1 match: t = 0x22 -> len 4; operand 12 -> dist 4, state 0.
    stream.extend_from_slice(&[0x22, 0x0C, 0x00]);
    // EOS marker.
    stream.extend_from_slice(&[0x11, 0x00, 0x00]);
    let out = lzo1x::decompress(&stream, 8).unwrap();
    assert_eq!(&out, b"wxyzwxyz");
}

/// Overlapping match: dist=1, len=4 turns one byte into a run.
#[test]
fn overlapping_run() {
    let mut stream = vec![1u8, b'Q', b'R', b'S', b'T'];
    stream.extend_from_slice(&[0x22, 0x00, 0x00]);
    stream.extend_from_slice(&[0x11, 0x00, 0x00]);
    let out = lzo1x::decompress(&stream, 8).unwrap();
    assert_eq!(&out, b"QRSTTTTT");
}

#[test]
fn truncated_stream_errors() {
    // Claims a literal run longer than the input provides.
    let stream = [21u8, b'a', b'b'];
    assert!(lzo1x::decompress(&stream, 4).is_err());
}

#[test]
fn match_before_any_output_errors() {
    // A match instruction as the very first token has no prior output
    // to copy from -> dist out of range.
    let stream = [0x22u8, 0x00, 0x00];
    assert!(lzo1x::decompress(&stream, 4).is_err());
}

/// Every bucket of the grammar, and the literals that follow a match.
#[test]
fn every_lzo_instruction() {
    // Bootstrap of one literal leaves state 1: a match of 2 at distance 1,
    // then no literals (SS 0).
    let s = [18u8, b'a', 0x00, 0x00, 0x11, 0, 0];
    assert_eq!(lzo1x::decompress(&s, 10).unwrap(), b"aaa");
    // The same with two literals behind the match.
    let s = [18u8, b'a', 0x02, 0x00, b'x', b'y', 0x11, 0, 0];
    assert_eq!(lzo1x::decompress(&s, 10).unwrap(), b"aaaxy");
    // 0 1 L D D D S S: 4 bytes from distance 2.
    let s = [19u8, b'a', b'b', 0x64, 0x00, 0x11, 0, 0];
    assert_eq!(lzo1x::decompress(&s, 10).unwrap(), b"ababab");
    // 1 L L D D D S S: 8 bytes from distance 1, one literal.
    let s = [19u8, b'a', b'b', 0xE1, 0x00, b'!', 0x11, 0, 0];
    assert_eq!(lzo1x::decompress(&s, 11).unwrap(), b"abbbbbbbbb!");
    // A zero run: 15 + 255 + 2 + 3 literals.
    let mut s = vec![0u8, 0, 2];
    let lits = pattern(275);
    s.extend_from_slice(&lits);
    s.extend_from_slice(&[0x11, 0, 0]);
    assert_eq!(lzo1x::decompress(&s, 275).unwrap(), lits);
    // A long match by a zero run: 31 + 9 + 2 bytes from distance 1.
    let s = [18u8, b'z', 0x20, 9, 0, 0, 0x11, 0, 0];
    assert_eq!(lzo1x::decompress(&s, 43).unwrap(), vec![b'z'; 43]);
    // After a long literal run, a match of 3 from distance 2049.
    let lits = pattern(2049);
    let mut s = vec![0u8];
    s.extend_from_slice(&[0; 7]);
    s.push((2049 - 3 - 15 - 7 * 255) as u8);
    s.extend_from_slice(&lits);
    s.extend_from_slice(&[0x00, 0x00, 0x11, 0, 0]);
    let out = lzo1x::decompress(&s, 2052).unwrap();
    assert_eq!(&out[..2049], &lits[..]);
    assert_eq!(&out[2049..], &lits[..3]);
    // 0 0 0 1 H L L L: distance 16385.
    let mut s = vec![0u8];
    let n = 16390usize;
    let lits = pattern(n);
    let mut left = n - 3 - 15;
    while left > 255 {
        s.push(0);
        left -= 255;
    }
    s.push(left as u8);
    s.extend_from_slice(&lits);
    s.extend_from_slice(&[0x12, 0x04, 0x00, 0x11, 0, 0]);
    let out = lzo1x::decompress(&s, n + 4).unwrap();
    assert_eq!(&out[n..], &lits[n - 16385..n - 16381]);
}

#[test]
fn lzo_streams_are_bounded() {
    let s = [21u8, b'a', b'b', b'c', b'd', 0x11, 0x00, 0x00];
    for max in 0..4 {
        assert!(lzo1x::decompress(&s, max).is_err());
    }
    assert!(lzo1x::decompress(&[], 10).is_err());
    // A stream without its end marker.
    assert!(lzo1x::decompress(&s[..5], 10).is_err());
    // A zero run that goes on for ever.
    assert!(lzo1x::decompress(&vec![0u8; 70_000], 1 << 20).is_err());
    assert_eq!(
        metadata_error(decompress(Compressor::Lzo, &[], 10)),
        "malformed LZO1X stream"
    );
    assert_eq!(decompress(Compressor::Lzo, &s, 4).unwrap(), b"abcd");
}

/// No codec panics or passes its ceiling on bytes that are not its own.
#[test]
fn garbage_is_refused_or_bounded() {
    let garbage = pattern(4096);
    for id in 1..=6 {
        let comp = Compressor::from_id(id).unwrap();
        for len in [0usize, 1, 2, 5, 13, 64, 1000, 4096] {
            for max in [0usize, 1, 100, 8192] {
                if let Ok(out) = decompress(comp, &garbage[..len], max) {
                    assert!(out.len() <= max);
                }
            }
        }
    }
}
