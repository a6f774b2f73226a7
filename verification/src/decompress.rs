//! Codec dispatch for compressed blocks.
//!
//! An image names one compressor for all its blocks, metadata and data
//! alike, and every block is compressed on its own:
//!
//! | id | name | framing of a block                          |
//! |----|------|---------------------------------------------|
//! | 1  | gzip | zlib stream                                 |
//! | 2  | lzma | `.lzma` "alone" stream                      |
//! | 3  | lzo  | LZO1X stream                                |
//! | 4  | xz   | `.xz` stream, perhaps with a BCJ filter     |
//! | 5  | lz4  | LZ4 block format, without a frame           |
//! | 6  | zstd | zstd frame                                  |
//!
//! What a block decodes to is bounded by the caller: 8 KiB for a metadata
//! block, the block size of the image for a data block.

use vstd::prelude::*;

use crate::error::{Error, Result};
use crate::lzo1x;
use crate::xz;

verus! {

/// The compressors, as the superblock names them.
#[derive(Debug, Clone, Copy, PartialEq, Eq, Structural)]
pub enum Compressor {
    Gzip,
    Lzma,
    Lzo,
    Xz,
    Lz4,
    Zstd,
}

/// The compressor with the given id.
pub open spec fn compressor_of(id: u16) -> Result<Compressor> {
    if id == 1 {
        Ok(Compressor::Gzip)
    } else if id == 2 {
        Ok(Compressor::Lzma)
    } else if id == 3 {
        Ok(Compressor::Lzo)
    } else if id == 4 {
        Ok(Compressor::Xz)
    } else if id == 5 {
        Ok(Compressor::Lz4)
    } else if id == 6 {
        Ok(Compressor::Zstd)
    } else {
        Err(Error::UnsupportedCompression(id))
    }
}

impl Compressor {
    /// The compressor with the given on-disk id.
    pub fn from_id(id: u16) -> (r: Result<Self>)
        ensures
            r == compressor_of(id),
    {
        match id {
            1 => Ok(Compressor::Gzip),
            2 => Ok(Compressor::Lzma),
            3 => Ok(Compressor::Lzo),
            4 => Ok(Compressor::Xz),
            5 => Ok(Compressor::Lz4),
            6 => Ok(Compressor::Zstd),
            other => Err(Error::UnsupportedCompression(other)),
        }
    }

    /// The short name of this compressor.
    pub open spec fn text(&self) -> Seq<char> {
        match *self {
            Compressor::Gzip => "gzip"@,
            Compressor::Lzma => "lzma"@,
            Compressor::Lzo => "lzo"@,
            Compressor::Xz => "xz"@,
            Compressor::Lz4 => "lz4"@,
            Compressor::Zstd => "zstd"@,
        }
    }

    /// Short human name, as shown in the volume information.
    pub fn name(&self) -> (r: &'static str)
        ensures
            r@ == self.text(),
    {
        match self {
            Compressor::Gzip => "gzip",
            Compressor::Lzma => "lzma",
            Compressor::Lzo => "lzo",
            Compressor::Xz => "xz",
            Compressor::Lz4 => "lz4",
            Compressor::Zstd => "zstd",
        }
    }

    /// Whether blocks of this compressor can be decoded: all of them can.
    pub fn is_supported(&self) -> (r: bool)
        ensures
            r,
    {
        true
    }
}

// ---- bounds ----

/// The bound that holds where the caller's is `max_out`: no block is larger
/// than memory can hold.
pub open spec fn ceiling(max_out: usize) -> nat {
    if max_out < isize::MAX {
        max_out as nat
    } else {
        (isize::MAX - 1) as nat
    }
}

/// The bound that holds where the caller's is `max_out`.
pub fn clamped(max_out: usize) -> (r: usize)
    ensures
        r == ceiling(max_out),
        r <= max_out,
        r < isize::MAX,
{
    if max_out < isize::MAX as usize {
        max_out
    } else {
        isize::MAX as usize - 1
    }
}

/// What decoding a stream gives with room for `room` bytes, where `full` is
/// what it gives with room for all: whether it came to the end, and the bytes
/// written. A decoder that runs out of room stops there.
pub open spec fn within(full: (bool, Seq<u8>), room: nat) -> (bool, Seq<u8>) {
    if full.1.len() <= room {
        full
    } else {
        (false, full.1.take(room as int))
    }
}

// ---- the codecs of other crates ----

/// What inflating the zlib stream `input` into a buffer of `room` bytes gives:
/// whether the stream came to its end, checksum included, and the bytes
/// written; or nothing where the stream is corrupt.
pub uninterp spec fn zlib_inflated(input: Seq<u8>, room: nat) -> Option<(bool, Seq<u8>)>;

/// `flate2::Decompress` over a zlib stream, in one call that writes into a
/// buffer of `room` bytes.
///
/// What DEFLATE decodes to is not spelled out here, only named; no more than
/// the buffer is written.
#[verifier::external_body]
fn inflate_zlib(input: &[u8], room: usize) -> (r: Option<(bool, Vec<u8>)>)
    requires
        room <= isize::MAX,
    ensures
        match r {
            Some((ended, out)) => {
                &&& zlib_inflated(input@, room as nat) == Some((ended, out@))
                &&& out.len() <= room
            },
            None => zlib_inflated(input@, room as nat) is None,
        },
{
    let mut out = vec![0u8; room];
    let mut dec = flate2::Decompress::new(true);
    let ended = match dec.decompress(input, &mut out, flate2::FlushDecompress::Finish) {
        Ok(flate2::Status::StreamEnd) => true,
        Ok(flate2::Status::Ok) => false,
        Ok(flate2::Status::BufError) => false,
        Err(_) => return None,
    };
    out.truncate(dec.total_out() as usize);
    Some((ended, out))
}

/// What decoding the `.xz` stream `input` gives where there is room for all
/// of it: whether it came to the end of the stream, which it does not where
/// the stream is malformed; and the bytes written.
pub uninterp spec fn xz_decoded(input: Seq<u8>) -> (bool, Seq<u8>);

/// What an xz decoder gives for `input`, which never comes to the end of a
/// stream whose footer says that its index is as long as can be said.
pub open spec fn unless_boundless(input: Seq<u8>, full: (bool, Seq<u8>)) -> (bool, Seq<u8>) {
    (full.0 && !xz::is_boundless(input), full.1)
}

/// `lzma_rs::xz_decompress` from `input` into a buffer of `room` bytes.
///
/// What the stream decodes to is not spelled out here, only named. The
/// decoder looks at its output for nothing but room, and stops at a block
/// that has none. It holds the backward size in the stream's footer against
/// the length of the index, so that all ones there is never the end of a
/// stream; but it adds one to it first, without guarding against overflow. A
/// stream whose blocks fit the room and that holds all ones there is left
/// out.
#[verifier::external_body]
fn decode_xz(input: &[u8], room: usize) -> (r: (bool, Vec<u8>))
    requires
        room <= isize::MAX,
        xz::backward_size(input@, room as nat) != Some(0xFFFF_FFFFu32),
    ensures
        within(unless_boundless(input@, xz_decoded(input@)), room as nat) == (r.0, r.1@),
        r.1.len() <= room,
{
    let mut reader = std::io::Cursor::new(input);
    let mut out = vec![0u8; room];
    let mut sink = std::io::Cursor::new(out.as_mut_slice());
    let ended = lzma_rs::xz_decompress(&mut reader, &mut sink).is_ok();
    let written = sink.position() as usize;
    out.truncate(written);
    (ended, out)
}

/// What decoding the `.lzma` stream `input` gives where there is room for all
/// of it: whether it came to the end of the stream, which it does not where
/// the stream is malformed; and the bytes written.
pub uninterp spec fn lzma_decoded(input: Seq<u8>) -> (bool, Seq<u8>);

/// `lzma_rs::lzma_decompress` from `input` into a buffer of `room` bytes.
///
/// What the stream decodes to is not spelled out here, only named. The
/// decoder looks at its output for nothing but room.
#[verifier::external_body]
fn decode_lzma(input: &[u8], room: usize) -> (r: (bool, Vec<u8>))
    requires
        room <= isize::MAX,
    ensures
        within(lzma_decoded(input@), room as nat) == (r.0, r.1@),
        r.1.len() <= room,
{
    let mut reader = std::io::Cursor::new(input);
    let mut out = vec![0u8; room];
    let mut sink = std::io::Cursor::new(out.as_mut_slice());
    let ended = lzma_rs::lzma_decompress(&mut reader, &mut sink).is_ok();
    let written = sink.position() as usize;
    out.truncate(written);
    (ended, out)
}

/// What the LZ4 block `input` decodes to, given room for `room` bytes;
/// nothing where it is malformed or needs more room.
pub uninterp spec fn lz4_decoded(input: Seq<u8>, room: nat) -> Option<Seq<u8>>;

/// `lz4_flex::block::decompress_into` from `input` into a buffer of `room`
/// bytes.
///
/// What the block decodes to is not spelled out here, only named; no more
/// than the buffer is written.
#[verifier::external_body]
fn decode_lz4(input: &[u8], room: usize) -> (r: Option<Vec<u8>>)
    requires
        room <= isize::MAX,
    ensures
        match r {
            Some(out) => lz4_decoded(input@, room as nat) == Some(out@) && out.len() <= room,
            None => lz4_decoded(input@, room as nat) is None,
        },
{
    let mut out = vec![0u8; room];
    match lz4_flex::block::decompress_into(input, &mut out) {
        Ok(written) => {
            out.truncate(written);
            Some(out)
        },
        Err(_) => None,
    }
}

/// What reading the zstd frame `input` to its end gives: nothing where the
/// frame header is refused, else whether decoding came to the end of the
/// frame and the bytes it gave up to there.
pub uninterp spec fn zstd_decoded(input: Seq<u8>) -> Option<(bool, Seq<u8>)>;

/// What reading a frame gives where no more than `room` bytes are read.
/// Whatever is wrong behind them is then not seen.
pub open spec fn read_within(full: (bool, Seq<u8>), room: nat) -> (bool, Seq<u8>) {
    if full.1.len() < room {
        full
    } else {
        (true, full.1.take(room as int))
    }
}

/// `ruzstd::decoding::StreamingDecoder` over `input`, read up to `room` bytes.
///
/// What the frame decodes to is not spelled out here, only named. The decoder
/// decodes a block when it is asked for more bytes than it holds, so that how
/// many are asked for at a time changes nothing.
#[verifier::external_body]
fn decode_zstd(input: &[u8], room: usize) -> (r: Option<(bool, Vec<u8>)>)
    ensures
        match (zstd_decoded(input@), r) {
            (None, None) => true,
            (Some(full), Some(got)) => {
                &&& read_within(full, room as nat) == (got.0, got.1@)
                &&& got.1.len() <= room
            },
            _ => false,
        },
{
    let dec = match ruzstd::decoding::StreamingDecoder::new(input) {
        Ok(dec) => dec,
        Err(_) => return None,
    };
    let mut out = Vec::new();
    let mut limited = std::io::Read::take(dec, room as u64);
    let ended = std::io::Read::read_to_end(&mut limited, &mut out).is_ok();
    Some((ended, out))
}

// ---- what is made of a codec's answer ----

/// The block that an inflated zlib stream holds. A stream that did not come
/// to its end is an error, never a shorter block.
pub open spec fn zlib_block_of(inflated: Option<(bool, Seq<u8>)>, max_out: nat) -> Result<Seq<u8>> {
    match inflated {
        None => Err(Error::BadMetadata("zlib decompression failed")),
        Some((ended, out)) => if !ended {
            Err(Error::BadMetadata("zlib stream did not finish"))
        } else if out.len() > max_out {
            Err(Error::BadMetadata("decompressed block exceeds max size"))
        } else {
            Ok(out)
        },
    }
}

/// The block that an inflated zlib stream holds.
pub fn zlib_block(inflated: Option<(bool, Vec<u8>)>, max_out: usize) -> (r: Result<Vec<u8>>)
    ensures
        crate::error::bytes_of(r) == zlib_block_of(
            match inflated {
                Some((ended, out)) => Some((ended, out@)),
                None => None,
            },
            max_out as nat,
        ),
{
    match inflated {
        None => Err(Error::BadMetadata("zlib decompression failed")),
        Some((ended, out)) => {
            if !ended {
                Err(Error::BadMetadata("zlib stream did not finish"))
            } else if out.len() > max_out {
                Err(Error::BadMetadata("decompressed block exceeds max size"))
            } else {
                Ok(out)
            }
        },
    }
}

/// The block in `decoded`, if it is there and within `max_out` bytes.
pub open spec fn bounded_block_of(
    decoded: Option<Seq<u8>>,
    max_out: nat,
    failed: &'static str,
) -> Result<Seq<u8>> {
    match decoded {
        None => Err(Error::BadMetadata(failed)),
        Some(out) => if out.len() > max_out {
            Err(Error::BadMetadata("decompressed block exceeds max size"))
        } else {
            Ok(out)
        },
    }
}

/// The block in `decoded`, if it is there and within `max_out` bytes.
pub fn bounded_block(decoded: Option<Vec<u8>>, max_out: usize, failed: &'static str) -> (r: Result<
    Vec<u8>,
>)
    ensures
        crate::error::bytes_of(r) == bounded_block_of(
            match decoded {
                Some(out) => Some(out@),
                None => None,
            },
            max_out as nat,
            failed,
        ),
{
    match decoded {
        None => Err(Error::BadMetadata(failed)),
        Some(out) => {
            if out.len() > max_out {
                Err(Error::BadMetadata("decompressed block exceeds max size"))
            } else {
                Ok(out)
            }
        },
    }
}

/// The block that a stream decoded to, if it came to its end within `max_out`
/// bytes. More bytes than that are told apart from a stream that failed.
pub open spec fn streamed_block_of(
    decoded: (bool, Seq<u8>),
    max_out: nat,
    failed: &'static str,
) -> Result<Seq<u8>> {
    if decoded.1.len() > max_out {
        Err(Error::BadMetadata("decompressed block exceeds max size"))
    } else if decoded.0 {
        Ok(decoded.1)
    } else {
        Err(Error::BadMetadata(failed))
    }
}

/// The block that a stream decoded to, if it came to its end within `max_out`
/// bytes.
pub fn streamed_block(decoded: (bool, Vec<u8>), max_out: usize, failed: &'static str) -> (r: Result<
    Vec<u8>,
>)
    ensures
        crate::error::bytes_of(r) == streamed_block_of(
            (decoded.0, decoded.1@),
            max_out as nat,
            failed,
        ),
{
    let (ended, out): (bool, Vec<u8>) = decoded;
    if out.len() > max_out {
        Err(Error::BadMetadata("decompressed block exceeds max size"))
    } else if ended {
        Ok(out)
    } else {
        Err(Error::BadMetadata(failed))
    }
}

/// The block in what a zstd frame decoded to.
pub open spec fn zstd_block_of(decoded: Option<(bool, Seq<u8>)>, max_out: nat) -> Result<Seq<u8>> {
    match decoded {
        None => Err(Error::BadMetadata("zstd frame decode init failed")),
        Some(full) => streamed_block_of(full, max_out, "zstd decompression failed"),
    }
}

/// The block in what a zstd frame decoded to.
pub fn zstd_block(decoded: Option<(bool, Vec<u8>)>, max_out: usize) -> (r: Result<Vec<u8>>)
    ensures
        crate::error::bytes_of(r) == zstd_block_of(
            match decoded {
                Some((ended, out)) => Some((ended, out@)),
                None => None,
            },
            max_out as nat,
        ),
{
    match decoded {
        None => Err(Error::BadMetadata("zstd frame decode init failed")),
        Some(full) => streamed_block(full, max_out, "zstd decompression failed"),
    }
}

// ---- the codecs of blocks ----

fn decompress_zlib(input: &[u8], max_out: usize) -> (r: Result<Vec<u8>>)
    requires
        max_out < isize::MAX,
    ensures
        crate::error::bytes_of(r) == decompressed(Compressor::Gzip, input@, max_out as nat),
{
    zlib_block(inflate_zlib(input, max_out), max_out)
}

/// Decodes an xz stream to at most `limit` bytes, in a buffer that grows
/// towards that as it is filled.
fn xz_within(input: &[u8], limit: usize) -> (r: (bool, Vec<u8>))
    requires
        limit <= isize::MAX,
        xz::backward_size(input@, limit as nat) != Some(0xFFFF_FFFFu32),
    ensures
        within(unless_boundless(input@, xz_decoded(input@)), limit as nat) == (r.0, r.1@),
{
    let mut room: usize = if limit < xz::FIRST_ROOM {
        limit
    } else {
        xz::FIRST_ROOM
    };
    loop
        invariant
            room <= limit <= isize::MAX,
            limit > 0 ==> room > 0,
            xz::backward_size(input@, limit as nat) != Some(0xFFFF_FFFFu32),
        decreases limit - room,
    {
        proof {
            xz::backward_size_with_more_room(input@, room as nat, limit as nat);
        }
        let got: (bool, Vec<u8>) = decode_xz(input, room);
        if got.1.len() < room || room == limit {
            return got;
        }
        room = if room <= limit / 2 {
            2 * room
        } else {
            limit
        };
    }
}

/// A stream with a filter in front of LZMA2 is decoded by [`crate::xz`]. No
/// stream has an index as long as a backward size of all ones says.
fn decompress_xz(input: &[u8], max_out: usize) -> (r: Result<Vec<u8>>)
    ensures
        crate::error::bytes_of(r) == decompressed(Compressor::Xz, input@, ceiling(max_out)),
{
    if xz::has_filters(input) {
        return xz::decompress(input, max_out);
    }
    let bound: usize = clamped(max_out);
    if xz::has_boundless_index(input, bound + 1) {
        return Err(Error::BadMetadata("xz decompression failed"));
    }
    streamed_block(xz_within(input, bound + 1), bound, "xz decompression failed")
}

/// Decodes a legacy lzma stream to at most `limit` bytes, in a buffer that
/// grows towards that as it is filled.
fn lzma_within(input: &[u8], limit: usize) -> (r: (bool, Vec<u8>))
    requires
        limit <= isize::MAX,
    ensures
        within(lzma_decoded(input@), limit as nat) == (r.0, r.1@),
{
    let mut room: usize = if limit < xz::FIRST_ROOM {
        limit
    } else {
        xz::FIRST_ROOM
    };
    loop
        invariant
            room <= limit <= isize::MAX,
            limit > 0 ==> room > 0,
        decreases limit - room,
    {
        let got: (bool, Vec<u8>) = decode_lzma(input, room);
        if got.1.len() < room || room == limit {
            return got;
        }
        room = if room <= limit / 2 {
            2 * room
        } else {
            limit
        };
    }
}

/// Legacy `lzma`: what very old versions of `mksquashfs` wrote.
fn decompress_lzma_alone(input: &[u8], max_out: usize) -> (r: Result<Vec<u8>>)
    ensures
        crate::error::bytes_of(r) == decompressed(Compressor::Lzma, input@, ceiling(max_out)),
{
    let bound: usize = clamped(max_out);
    streamed_block(lzma_within(input, bound + 1), bound, "lzma decompression failed")
}

fn decompress_lz4(input: &[u8], max_out: usize) -> (r: Result<Vec<u8>>)
    requires
        max_out < isize::MAX,
    ensures
        crate::error::bytes_of(r) == decompressed(Compressor::Lz4, input@, max_out as nat),
{
    bounded_block(decode_lz4(input, max_out), max_out, "lz4 decompression failed")
}

fn decompress_zstd(input: &[u8], max_out: usize) -> (r: Result<Vec<u8>>)
    ensures
        crate::error::bytes_of(r) == decompressed(Compressor::Zstd, input@, ceiling(max_out)),
{
    let bound: usize = clamped(max_out);
    zstd_block(decode_zstd(input, bound + 1), bound)
}

/// What the block `input` decompresses to, in at most `max_out` bytes.
pub open spec fn decompressed(comp: Compressor, input: Seq<u8>, max_out: nat) -> Result<Seq<u8>> {
    match comp {
        Compressor::Gzip => zlib_block_of(zlib_inflated(input, max_out), max_out),
        Compressor::Xz => if xz::is_filtered(input) {
            xz::stream_decoded(input, max_out, true)
        } else if xz::backward_size(input, max_out + 1) == Some(0xFFFF_FFFFu32) {
            Err(Error::BadMetadata("xz decompression failed"))
        } else {
            streamed_block_of(
                unless_boundless(input, xz_decoded(input)),
                max_out,
                "xz decompression failed",
            )
        },
        Compressor::Lzma => streamed_block_of(
            lzma_decoded(input),
            max_out,
            "lzma decompression failed",
        ),
        Compressor::Lz4 => bounded_block_of(
            lz4_decoded(input, max_out),
            max_out,
            "lz4 decompression failed",
        ),
        Compressor::Zstd => zstd_block_of(zstd_decoded(input), max_out),
        Compressor::Lzo => match lzo1x::decoded(input, max_out) {
            Some(out) => Ok(out),
            None => Err(lzo1x::malformed()),
        },
    }
}

/// The bound that holds for a block of `comp` where the caller's is `max_out`.
/// It is clamped where the codec's own output has to fit in memory first.
pub open spec fn bound_for(comp: Compressor, max_out: usize) -> nat {
    match comp {
        Compressor::Xz => ceiling(max_out),
        Compressor::Lzma => ceiling(max_out),
        Compressor::Zstd => ceiling(max_out),
        _ => max_out as nat,
    }
}

/// Decompresses one block. `input` is the block as it stands on disk;
/// `max_out` bounds what it may decompress to.
///
/// The bound is allocated for gzip and lz4, so there it has to fit in memory.
pub fn decompress(comp: Compressor, input: &[u8], max_out: usize) -> (r: Result<Vec<u8>>)
    requires
        comp == Compressor::Gzip || comp == Compressor::Lz4 ==> max_out < isize::MAX,
    ensures
        crate::error::bytes_of(r) == decompressed(comp, input@, bound_for(comp, max_out)),
        r matches Ok(out) ==> out.len() <= max_out,
{
    proof {
        decompressed_is_bounded(comp, input@, bound_for(comp, max_out));
    }
    match comp {
        Compressor::Gzip => decompress_zlib(input, max_out),
        Compressor::Xz => decompress_xz(input, max_out),
        Compressor::Lzma => decompress_lzma_alone(input, max_out),
        Compressor::Lz4 => decompress_lz4(input, max_out),
        Compressor::Zstd => decompress_zstd(input, max_out),
        Compressor::Lzo => lzo1x::decompress(input, max_out),
    }
}

// ---- laws ----

/// No block decompresses to more than its bound.
pub proof fn decompressed_is_bounded(comp: Compressor, input: Seq<u8>, max_out: nat)
    ensures
        decompressed(comp, input, max_out) matches Ok(out) ==> out.len() <= max_out,
{
    if comp == Compressor::Xz && xz::is_filtered(input) {
        xz::stream_decoded_at_another_bound(input, max_out, max_out, true);
    }
    lzo1x::decoded_is_bounded(input, max_out);
}

/// The bound only refuses: a block that decompresses under one bound gives
/// the same bytes under every bound that holds them, and is an error, never a
/// shorter block, under any other. This is for the codecs that are not handed
/// a buffer of the bound's size.
pub proof fn decompressed_at_another_bound(comp: Compressor, input: Seq<u8>, n: nat, m: nat)
    requires
        comp != Compressor::Gzip,
        comp != Compressor::Lz4,
    ensures
        decompressed(comp, input, n) matches Ok(out) ==> {
            &&& out.len() <= n
            &&& out.len() <= m ==> decompressed(comp, input, m) == Ok::<Seq<u8>, Error>(out)
            &&& out.len() > m ==> decompressed(comp, input, m) matches Err(Error::BadMetadata(_))
        },
{
    if comp == Compressor::Xz && xz::is_filtered(input) {
        xz::stream_decoded_at_another_bound(input, n, m, true);
    }
    lzo1x::decoded_at_another_bound(input, n, m);
}

} // verus!
