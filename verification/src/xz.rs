//! `.xz` streams whose filter chain may put a branch-call-jump converter in
//! front of LZMA2.
//!
//! `mksquashfs -comp xz -Xbcj <arch>` filters a data block through a
//! converter whenever that makes the block smaller. This module parses the
//! container, has the raw LZMA2 payload decoded, verifies the block's check
//! and undoes the converter. Each SquashFS block is its own stream, so a
//! converter's position starts at the offset in its properties, zero unless
//! they say otherwise.

use vstd::prelude::*;

use crate::bcj::{decode, Bcj};
use crate::bytes::{get_le32, get_le64};
use crate::decompress::clamped;
use crate::error::{Error, Result};

verus! {

/// The filter id of LZMA2.
pub const FILTER_LZMA2: u64 = 0x21;

/// The six magic bytes an xz stream starts with.
pub open spec fn has_magic(stream: Seq<u8>) -> bool {
    &&& stream.len() >= 6
    &&& stream[0] == 0xFD
    &&& stream[1] == 0x37
    &&& stream[2] == 0x7A
    &&& stream[3] == 0x58
    &&& stream[4] == 0x5A
    &&& stream[5] == 0x00
}

fn starts_with_magic(stream: &[u8]) -> (r: bool)
    ensures
        r == has_magic(stream@),
{
    stream.len() >= 6 && stream[0] == 0xFD && stream[1] == 0x37 && stream[2] == 0x7A && stream[3]
        == 0x58 && stream[4] == 0x5A && stream[5] == 0x00
}

/// Whether the first block of `stream` names more than one filter.
pub open spec fn is_filtered(stream: Seq<u8>) -> bool {
    has_magic(stream) && stream.len() >= 14 && stream[12] != 0 && stream[13] & 0x03 != 0
}

/// Whether `stream`'s first block names a filter chain other than plain
/// LZMA2. `false` for anything that does not parse.
pub fn has_filters(stream: &[u8]) -> (r: bool)
    ensures
        r == is_filtered(stream@),
{
    if stream.len() < 14 || !starts_with_magic(stream) {
        return false;
    }
    stream[12] != 0 && stream[13] & 0x03 != 0
}

// ---- checksums ----

/// One step of the reflected CRC-32 (IEEE 802.3) register.
pub open spec fn crc32_bit(crc: u32) -> u32 {
    if crc & 1 != 0 {
        (crc >> 1) ^ 0xEDB8_8320
    } else {
        crc >> 1
    }
}

/// The CRC-32 register after `n` steps.
pub open spec fn crc32_bits(crc: u32, n: nat) -> u32
    decreases n,
{
    if n == 0 {
        crc
    } else {
        crc32_bits(crc32_bit(crc), (n - 1) as nat)
    }
}

/// The CRC-32 register after `data`, starting from all ones.
pub open spec fn crc32_register(data: Seq<u8>) -> u32
    decreases data.len(),
{
    if data.len() == 0 {
        0xFFFF_FFFF
    } else {
        crc32_bits(crc32_register(data.drop_last()) ^ data.last() as u32, 8)
    }
}

/// The CRC-32 of `data`.
pub open spec fn crc32_of(data: Seq<u8>) -> u32 {
    !crc32_register(data)
}

/// `flate2::Crc` over `data` in one update: the CRC-32 of gzip, which is the
/// reflected IEEE 802.3 polynomial with an all-ones start and complement.
#[verifier::external_body]
fn crc32(data: &[u8]) -> (r: u32)
    ensures
        r == crc32_of(data@),
{
    let mut crc = flate2::Crc::new();
    crc.update(data);
    crc.sum()
}

/// One step of the reflected CRC-64 (ECMA-182) register.
pub open spec fn crc64_bit(crc: u64) -> u64 {
    if crc & 1 != 0 {
        (crc >> 1) ^ 0xC96C_5795_D787_0F42
    } else {
        crc >> 1
    }
}

/// The CRC-64 register after `n` steps.
pub open spec fn crc64_bits(crc: u64, n: nat) -> u64
    decreases n,
{
    if n == 0 {
        crc
    } else {
        crc64_bits(crc64_bit(crc), (n - 1) as nat)
    }
}

/// The CRC-64 register after `data`, starting from all ones.
pub open spec fn crc64_register(data: Seq<u8>) -> u64
    decreases data.len(),
{
    if data.len() == 0 {
        0xFFFF_FFFF_FFFF_FFFF
    } else {
        crc64_bits(crc64_register(data.drop_last()) ^ data.last() as u64, 8)
    }
}

/// The CRC-64 of `data`, as xz uses it.
pub open spec fn crc64_of(data: Seq<u8>) -> u64 {
    !crc64_register(data)
}

/// CRC-64/XZ: ECMA-182, reflected.
pub fn crc64(data: &[u8]) -> (r: u64)
    ensures
        r == crc64_of(data@),
{
    let mut crc: u64 = 0xFFFF_FFFF_FFFF_FFFF;
    let mut i: usize = 0;
    while i < data.len()
        invariant
            i <= data@.len(),
            crc == crc64_register(data@.take(i as int)),
        decreases data.len() - i,
    {
        let ghost before = crc;
        crc = crc ^ (data[i] as u64);
        let ghost mixed = crc;
        let mut k: u8 = 0;
        while k < 8
            invariant
                k <= 8,
                crc64_bits(crc, (8 - k) as nat) == crc64_bits(mixed, 8),
            decreases 8 - k,
        {
            crc = if crc & 1 != 0 {
                (crc >> 1) ^ 0xC96C_5795_D787_0F42
            } else {
                crc >> 1
            };
            k = k + 1;
        }
        assert(data@.take(i + 1).drop_last() =~= data@.take(i as int));
        i = i + 1;
    }
    assert(data@.take(i as int) =~= data@);
    !crc
}

// ---- variable-length integers ----

/// 128 to the power of `n`.
pub open spec fn pow128(n: nat) -> nat
    decreases n,
{
    if n == 0 {
        1
    } else {
        128 * pow128((n - 1) as nat)
    }
}

/// The integer at `at`, of which `i` bytes were read already, and where it
/// ends: seven bits a byte, lowest first, the top bit set on all but the
/// last byte.
pub open spec fn varint_tail(buf: Seq<u8>, at: int, i: nat) -> Result<(nat, int)>
    decreases 9 - i,
{
    if i >= 9 {
        Err(Error::BadMetadata("xz: varint longer than nine bytes"))
    } else if at >= buf.len() {
        Err(Error::BadMetadata("xz: varint runs off the block header"))
    } else if buf[at] >= 0x80 {
        match varint_tail(buf, at + 1, i + 1) {
            Ok((v, next)) => Ok(((buf[at] - 0x80 + 128 * v) as nat, next)),
            Err(e) => Err(e),
        }
    } else if i > 0 && buf[at] == 0 {
        Err(Error::BadMetadata("xz: varint is not minimally encoded"))
    } else {
        Ok((buf[at] as nat, at + 1))
    }
}

/// The integer at `at` and where it ends.
pub open spec fn varint_at(buf: Seq<u8>, at: int) -> Result<(nat, int)> {
    varint_tail(buf, at, 0)
}

/// Where reading the integer at `at` stops, of which `i` bytes were read
/// already: behind the last byte that was looked at.
pub open spec fn varint_stop(buf: Seq<u8>, at: int, i: nat) -> int
    decreases 9 - i,
{
    if i >= 9 || at >= buf.len() {
        at
    } else if buf[at] >= 0x80 {
        varint_stop(buf, at + 1, i + 1)
    } else {
        at + 1
    }
}

fn read_varint_tail(buf: &[u8], at: usize, i: u8) -> (r: (Result<u64>, usize))
    requires
        i <= 9,
    ensures
        r.1 == varint_stop(buf@, at as int, i as nat),
        match r.0 {
            Ok(v) => {
                &&& varint_tail(buf@, at as int, i as nat) == Ok::<(nat, int), Error>(
                    (v as nat, r.1 as int),
                )
                &&& v < pow128((9 - i) as nat)
                &&& at < r.1 <= buf.len()
            },
            Err(e) => varint_tail(buf@, at as int, i as nat) == Err::<(nat, int), Error>(e),
        },
    decreases 9 - i,
{
    if i >= 9 {
        return (Err(Error::BadMetadata("xz: varint longer than nine bytes")), at);
    }
    if at >= buf.len() {
        return (Err(Error::BadMetadata("xz: varint runs off the block header")), at);
    }
    let b: u8 = buf[at];
    if b >= 0x80 {
        let (rest, stop): (Result<u64>, usize) = read_varint_tail(buf, at + 1, i + 1);
        match rest {
            Ok(v) => {
                proof {
                    reveal_with_fuel(pow128, 10);
                    lemma_pow128_bound((9 - i) as nat);
                }
                (Ok((b - 0x80) as u64 + 128 * v), stop)
            },
            Err(e) => (Err(e), stop),
        }
    } else if i > 0 && b == 0 {
        (Err(Error::BadMetadata("xz: varint is not minimally encoded")), at + 1)
    } else {
        proof {
            lemma_pow128_bound((9 - i) as nat);
        }
        (Ok(b as u64), at + 1)
    }
}

proof fn lemma_pow128_bound(n: nat)
    requires
        1 <= n <= 9,
    ensures
        128 <= pow128(n) <= 0x8000_0000_0000_0000,
        pow128(n) == 128 * pow128((n - 1) as nat),
    decreases n,
{
    reveal_with_fuel(pow128, 10);
    if n > 1 {
        lemma_pow128_bound((n - 1) as nat);
    }
    assert(pow128(9) == 0x8000_0000_0000_0000);
}

/// Reads the integer at `*at` and moves `*at` past all that was looked at,
/// whether or not it is an integer.
pub fn varint(buf: &[u8], at: &mut usize) -> (r: Result<u64>)
    ensures
        *final(at) == varint_stop(buf@, *old(at) as int, 0),
        match r {
            Ok(v) => {
                &&& varint_at(buf@, *old(at) as int) == Ok::<(nat, int), Error>(
                    (v as nat, *final(at) as int),
                )
                &&& *old(at) < *final(at) <= buf.len()
                &&& v < 0x8000_0000_0000_0000
            },
            Err(e) => varint_at(buf@, *old(at) as int) == Err::<(nat, int), Error>(e),
        },
{
    let (value, stop): (Result<u64>, usize) = read_varint_tail(buf, *at, 0);
    proof {
        lemma_pow128_bound(9);
    }
    *at = stop;
    value
}

// ---- block headers ----

/// The start offset that a converter's properties name.
pub open spec fn bcj_start(props: Seq<u8>) -> Result<u32> {
    if props.len() == 0 {
        Ok(0)
    } else if props.len() == 4 {
        Ok(crate::bytes::le32(props, 0))
    } else {
        Err(Error::BadMetadata("xz: BCJ properties are neither empty nor 4 bytes"))
    }
}

/// The converter of a chain, of which `filters` are left to read from `at`
/// on, given the one read already; and where the chain ends.
pub open spec fn chain_at(
    body: Seq<u8>,
    at: int,
    filters: nat,
    bcj: Option<(Bcj, u32)>,
) -> Result<(Option<(Bcj, u32)>, int)>
    decreases filters,
{
    if filters == 0 {
        Ok((bcj, at))
    } else {
        match varint_at(body, at) {
            Err(e) => Err(e),
            Ok((id, after_id)) => match varint_at(body, after_id) {
                Err(e) => Err(e),
                Ok((props_len, props_at)) => {
                    let end = props_at + props_len;
                    if end > body.len() {
                        Err(Error::BadMetadata("xz: filter properties run off the block header"))
                    } else if filters == 1 {
                        if id == FILTER_LZMA2 {
                            Ok((bcj, end))
                        } else {
                            Err(Error::BadMetadata("xz: the chain does not end in LZMA2"))
                        }
                    } else if id == FILTER_LZMA2 {
                        Err(Error::BadMetadata("xz: LZMA2 before the end of the chain"))
                    } else if bcj is Some {
                        Err(Error::BadMetadata("xz: more than one filter before LZMA2"))
                    } else {
                        match bcj_start(body.subrange(props_at, end)) {
                            Err(e) => Err(e),
                            Ok(start) => match crate::bcj::bcj_named(id as u64) {
                                Err(e) => Err(e),
                                Ok(kind) => chain_at(
                                    body,
                                    end,
                                    (filters - 1) as nat,
                                    Some((kind, start)),
                                ),
                            },
                        }
                    }
                },
            },
        }
    }
}

fn read_chain(body: &[u8], at: &mut usize, filters: u8) -> (r: Result<Option<(Bcj, u32)>>)
    requires
        *old(at) <= body.len(),
        filters >= 1,
    ensures
        match r {
            Ok(bcj) => {
                &&& chain_at(body@, *old(at) as int, filters as nat, None) == Ok::<
                    (Option<(Bcj, u32)>, int),
                    Error,
                >((bcj, *final(at) as int))
                &&& *final(at) <= body.len()
            },
            Err(e) => chain_at(body@, *old(at) as int, filters as nat, None) == Err::<
                (Option<(Bcj, u32)>, int),
                Error,
            >(e),
        },
{
    let mut bcj: Option<(Bcj, u32)> = None;
    let mut left: u8 = filters;
    while left > 0
        invariant
            *at <= body.len(),
            chain_at(body@, *at as int, left as nat, bcj) == chain_at(
                body@,
                *old(at) as int,
                filters as nat,
                None,
            ),
        decreases left,
    {
        let id: u64 = varint(body, at)?;
        let props_len: u64 = varint(body, at)?;
        if props_len > (body.len() - *at) as u64 {
            return Err(Error::BadMetadata("xz: filter properties run off the block header"));
        }
        let end: usize = *at + props_len as usize;
        if left == 1 {
            if id != FILTER_LZMA2 {
                return Err(Error::BadMetadata("xz: the chain does not end in LZMA2"));
            }
        } else if id == FILTER_LZMA2 {
            return Err(Error::BadMetadata("xz: LZMA2 before the end of the chain"));
        } else if bcj.is_some() {
            return Err(Error::BadMetadata("xz: more than one filter before LZMA2"));
        } else {
            let start: u32 = if props_len == 0 {
                0
            } else if props_len == 4 {
                get_le32(&body[*at..end], 0)
            } else {
                return Err(
                    Error::BadMetadata("xz: BCJ properties are neither empty nor 4 bytes"),
                );
            };
            bcj = Some((Bcj::from_id(id)?, start));
        }
        *at = end;
        left = left - 1;
    }
    Ok(bcj)
}

/// What a block header says of its block.
pub struct BlockHeader {
    /// The length of the LZMA2 payload, where it is recorded.
    pub compressed_size: Option<u64>,
    /// The length of the decoded block, where it is recorded.
    pub uncompressed_size: Option<u64>,
    /// The converter in front of LZMA2 and its start offset, if there is one.
    pub bcj: Option<(Bcj, u32)>,
}

/// An optional integer at `at`, and where it ends.
pub open spec fn optional_varint(body: Seq<u8>, at: int, present: bool) -> Result<
    (Option<u64>, int),
> {
    if present {
        match varint_at(body, at) {
            Ok((v, next)) => Ok((Some(v as u64), next)),
            Err(e) => Err(e),
        }
    } else {
        Ok((None, at))
    }
}

/// The block header in `body`, which starts with the size and flag bytes
/// and leaves out the checksum.
pub open spec fn header_in(body: Seq<u8>) -> Result<BlockHeader> {
    let flags = body[1];
    if flags & 0x3C != 0 {
        Err(Error::BadMetadata("xz: reserved block flags set"))
    } else {
        match optional_varint(body, 2, flags & 0x40 != 0) {
            Err(e) => Err(e),
            Ok((compressed_size, at1)) => match optional_varint(body, at1, flags & 0x80 != 0) {
                Err(e) => Err(e),
                Ok((uncompressed_size, at2)) => match chain_at(
                    body,
                    at2,
                    ((flags & 0x03) + 1) as nat,
                    None,
                ) {
                    Err(e) => Err(e),
                    Ok((bcj, end)) => if !is_zero_from(body, end) {
                        Err(Error::BadMetadata("xz: block header padding is not zero"))
                    } else {
                        Ok(BlockHeader { compressed_size, uncompressed_size, bcj })
                    },
                },
            },
        }
    }
}

/// Whether every byte from `at` on is zero.
pub open spec fn is_zero_from(b: Seq<u8>, at: int) -> bool {
    forall|k: int| at <= k < b.len() ==> #[trigger] b[k] == 0
}

fn zero_from(b: &[u8], at: usize) -> (r: bool)
    requires
        at <= b.len(),
    ensures
        r == is_zero_from(b@, at as int),
{
    let mut k: usize = at;
    while k < b.len()
        invariant
            at <= k <= b.len(),
            forall|j: int| at <= j < k ==> #[trigger] b@[j] == 0,
        decreases b.len() - k,
    {
        if b[k] != 0 {
            return false;
        }
        k = k + 1;
    }
    true
}

fn parse_header(body: &[u8]) -> (r: Result<BlockHeader>)
    requires
        body.len() >= 4,
    ensures
        r == header_in(body@),
{
    let flags: u8 = body[1];
    if flags & 0x3C != 0 {
        return Err(Error::BadMetadata("xz: reserved block flags set"));
    }
    let mut at: usize = 2;
    let compressed_size: Option<u64> = if flags & 0x40 != 0 {
        Some(varint(body, &mut at)?)
    } else {
        None
    };
    let uncompressed_size: Option<u64> = if flags & 0x80 != 0 {
        Some(varint(body, &mut at)?)
    } else {
        None
    };
    assert(flags & 0x03 <= 3) by (bit_vector);
    let bcj: Option<(Bcj, u32)> = read_chain(body, &mut at, (flags & 0x03) + 1)?;
    if !zero_from(body, at) {
        return Err(Error::BadMetadata("xz: block header padding is not zero"));
    }
    Ok(BlockHeader { compressed_size, uncompressed_size, bcj })
}

// ---- blocks ----

/// What LZMA2 decoding makes of `payload` where there is room for all of it:
/// how much of the payload was read up to the end marker, nothing where there
/// is none or the payload is malformed before it; and the bytes written.
pub uninterp spec fn lzma2_decoded(payload: Seq<u8>) -> (Option<nat>, Seq<u8>);

/// The same with room for `room` bytes: a decoder that runs out of it stops
/// there.
pub open spec fn lzma2_within(full: (Option<nat>, Seq<u8>), room: nat) -> (Option<nat>, Seq<u8>) {
    if full.1.len() <= room {
        full
    } else {
        (None, full.1.take(room as int))
    }
}

/// `lzma_rs::lzma2_decompress` from `payload` into a buffer of `room` bytes.
///
/// What LZMA2 decodes to is not spelled out here, only named. The decoder
/// looks at its output for nothing but room: where all of it fits the result
/// is that of any larger buffer, and where it does not the buffer is filled
/// and decoding fails. It reads no more than the payload.
#[verifier::external_body]
fn lzma2_decompress(payload: &[u8], room: usize) -> (r: (Option<usize>, Vec<u8>))
    requires
        room <= isize::MAX,
    ensures
        lzma2_within(lzma2_decoded(payload@), room as nat) == (
            match r.0 {
                Some(consumed) => Some(consumed as nat),
                None => None,
            },
            r.1@,
        ),
        r.1.len() <= room,
        r.0 matches Some(consumed) ==> consumed <= payload.len(),
{
    let mut input = std::io::Cursor::new(payload);
    let mut block = vec![0u8; room];
    let mut sink = std::io::Cursor::new(block.as_mut_slice());
    let ended = lzma_rs::lzma2_decompress(&mut input, &mut sink).is_ok();
    let written = sink.position() as usize;
    block.truncate(written);
    (ended.then_some(input.position() as usize), block)
}

/// The buffer that decoding starts with, where the bound is no smaller. It
/// holds the largest block of an image.
pub const FIRST_ROOM: usize = 0x20_0000;

/// Decodes an LZMA2 payload to at most `limit` bytes, in a buffer that grows
/// towards that as it is filled.
fn lzma2(payload: &[u8], limit: usize) -> (r: (Option<usize>, Vec<u8>))
    requires
        limit <= isize::MAX,
    ensures
        lzma2_within(lzma2_decoded(payload@), limit as nat) == (
            match r.0 {
                Some(consumed) => Some(consumed as nat),
                None => None,
            },
            r.1@,
        ),
        r.1.len() <= limit,
        r.0 matches Some(consumed) ==> consumed <= payload.len(),
{
    let mut room: usize = if limit < FIRST_ROOM {
        limit
    } else {
        FIRST_ROOM
    };
    loop
        invariant
            room <= limit <= isize::MAX,
            limit > 0 ==> room > 0,
        decreases limit - room,
    {
        let got: (Option<usize>, Vec<u8>) = lzma2_decompress(payload, room);
        if got.1.len() < room || room == limit {
            return got;
        }
        room = if room <= limit / 2 {
            2 * room
        } else {
            limit
        };
    }
}

/// A block that was decoded to the end within `limit` bytes, and how much of
/// the payload it took.
pub open spec fn whole_block(full: (Option<nat>, Seq<u8>), limit: nat) -> Option<(Seq<u8>, nat)> {
    match full.0 {
        Some(consumed) => if full.1.len() <= limit {
            Some((full.1, consumed))
        } else {
            None
        },
        None => None,
    }
}

/// The length of the check that follows each block, by the check's id.
pub open spec fn check_len(check: u8) -> Result<nat> {
    if check == 0x00 {
        Ok(0)
    } else if check == 0x01 {
        Ok(4)
    } else if check == 0x04 {
        Ok(8)
    } else if check == 0x0A {
        Ok(32)
    } else {
        Err(Error::BadMetadata("xz: unknown check type"))
    }
}

fn length_of_check(check: u8) -> (r: Result<usize>)
    ensures
        match r {
            Ok(n) => check_len(check) == Ok::<nat, Error>(n as nat),
            Err(e) => check_len(check) == Err::<nat, Error>(e),
        },
{
    match check {
        0x00 => Ok(0),
        0x01 => Ok(4),
        0x04 => Ok(8),
        0x0A => Ok(32),
        _ => Err(Error::BadMetadata("xz: unknown check type")),
    }
}

/// Whether the check `stored` after a block covers the bytes of `block`.
pub open spec fn checked(check: u8, block: Seq<u8>, stored: Seq<u8>) -> Result<()> {
    if check == 0x01 && crc32_of(block) != crate::bytes::le32(stored, 0) {
        Err(Error::BadMetadata("xz: block CRC32 mismatch"))
    } else if check == 0x04 && crc64_of(block) != crate::bytes::le64(stored, 0) {
        Err(Error::BadMetadata("xz: block CRC64 mismatch"))
    } else if check == 0x0A {
        Err(Error::BadMetadata("xz: SHA-256 checked blocks are not supported"))
    } else {
        Ok(())
    }
}

fn verify_check(check: u8, block: &[u8], stored: &[u8]) -> (r: Result<()>)
    requires
        check == 0x01 ==> stored.len() == 4,
        check == 0x04 ==> stored.len() == 8,
    ensures
        r == checked(check, block@, stored@),
{
    if check == 0x01 && crc32(block) != get_le32(stored, 0) {
        return Err(Error::BadMetadata("xz: block CRC32 mismatch"));
    }
    if check == 0x04 && crc64(block) != get_le64(stored, 0) {
        return Err(Error::BadMetadata("xz: block CRC64 mismatch"));
    }
    if check == 0x0A {
        return Err(Error::BadMetadata("xz: SHA-256 checked blocks are not supported"));
    }
    Ok(())
}

/// Where a block's padding ends: the block takes a multiple of four bytes.
pub open spec fn padded_end(block_start: int, end: int) -> int {
    end + (4 - (end - block_start) % 4) % 4
}

/// The bytes of a block and where the next one starts, given what LZMA2
/// made of its payload.
///
/// `room` is how many bytes the block may still add; `run_filter` tells
/// whether the converter is undone. The check covers the bytes after the
/// converter, so where there is one that is not undone it is not looked at.
pub open spec fn block_after_lzma2(
    stream: Seq<u8>,
    block_start: int,
    data_start: int,
    header: BlockHeader,
    check: u8,
    room: nat,
    run_filter: bool,
    decoded: Option<(Seq<u8>, nat)>,
) -> Result<(Seq<u8>, int)> {
    match decoded {
        None => Err(Error::BadMetadata("xz decompression failed")),
        Some((block, consumed)) => {
            let end = data_start + consumed;
            let padded = padded_end(block_start, end);
            let check_end = padded + (check_len(check)->Ok_0);
            if header.compressed_size is Some && header.compressed_size->0 != consumed {
                Err(Error::BadMetadata("xz: compressed size disagrees with the payload"))
            } else if header.uncompressed_size is Some && header.uncompressed_size->0
                != block.len() {
                Err(Error::BadMetadata("xz: uncompressed size disagrees with the payload"))
            } else if block.len() > room {
                Err(Error::BadMetadata("decompressed block exceeds max size"))
            } else if padded > stream.len() || !is_zero_from(stream.take(padded), end) {
                Err(Error::BadMetadata("xz: block padding is not zero"))
            } else if check_end > stream.len() {
                Err(Error::BadMetadata("xz: block check runs off the stream"))
            } else if header.bcj is Some && !run_filter {
                Ok((block, check_end))
            } else {
                let bytes = match header.bcj {
                    Some((kind, start)) => crate::bcj::decoded(kind, start, block),
                    None => block,
                };
                match checked(check, bytes, stream.subrange(padded, check_end)) {
                    Ok(_) => Ok((bytes, check_end)),
                    Err(e) => Err(e),
                }
            }
        },
    }
}

/// Finishes a block, given what LZMA2 made of its payload: checks the sizes,
/// the padding and the check, and undoes the converter.
#[verifier::rlimit(40)]
pub fn finish_block(
    stream: &[u8],
    block_start: usize,
    data_start: usize,
    header: &BlockHeader,
    check: u8,
    room: usize,
    run_filter: bool,
    decoded: Option<(Vec<u8>, usize)>,
) -> (r: Result<(Vec<u8>, usize)>)
    requires
        block_start <= data_start <= stream.len(),
        check_len(check) is Ok,
        decoded matches Some((_, consumed)) ==> consumed <= stream.len() - data_start,
    ensures
        ({
            let seen = match decoded {
                Some((block, consumed)) => Some((block@, consumed as nat)),
                None => None,
            };
            let want = block_after_lzma2(
                stream@,
                block_start as int,
                data_start as int,
                *header,
                check,
                room as nat,
                run_filter,
                seen,
            );
            match r {
                Ok((bytes, next)) => {
                    &&& want == Ok::<(Seq<u8>, int), Error>((bytes@, next as int))
                    &&& bytes.len() <= room
                    &&& data_start <= next <= stream.len()
                },
                Err(e) => want == Err::<(Seq<u8>, int), Error>(e),
            }
        }),
{
    let (mut block, consumed): (Vec<u8>, usize) = match decoded {
        Some(d) => d,
        None => return Err(Error::BadMetadata("xz decompression failed")),
    };
    match header.compressed_size {
        Some(n) if n != consumed as u64 => {
            return Err(Error::BadMetadata("xz: compressed size disagrees with the payload"));
        },
        _ => {},
    }
    match header.uncompressed_size {
        Some(n) if n != block.len() as u64 => {
            return Err(Error::BadMetadata("xz: uncompressed size disagrees with the payload"));
        },
        _ => {},
    }
    if block.len() > room {
        return Err(Error::BadMetadata("decompressed block exceeds max size"));
    }
    let check_size: usize = length_of_check(check)?;
    let end: usize = data_start + consumed;
    let pad: usize = (4 - (end - block_start) % 4) % 4;
    if pad > stream.len() - end || !zero_from(&stream[0..end + pad], end) {
        return Err(Error::BadMetadata("xz: block padding is not zero"));
    }
    let padded: usize = end + pad;
    assert(stream@.subrange(0, padded as int) =~= stream@.take(padded as int));
    if check_size > stream.len() - padded {
        return Err(Error::BadMetadata("xz: block check runs off the stream"));
    }
    let next: usize = padded + check_size;
    if let Some((kind, start)) = header.bcj {
        if !run_filter {
            return Ok((block, next));
        }
        decode(kind, start, &mut block);
    }
    verify_check(check, block.as_slice(), &stream[padded..next])?;
    Ok((block, next))
}

/// The part of `stream` that holds the payload of the block at `data_start`.
pub open spec fn payload_at(stream: Seq<u8>, data_start: int, size: Option<u64>) -> Result<
    Seq<u8>,
> {
    match size {
        Some(n) => if n > usize::MAX {
            Err(Error::BadMetadata("xz: compressed size too large"))
        } else if data_start + n > stream.len() {
            Err(Error::BadMetadata("xz: compressed size runs off the stream"))
        } else {
            Ok(stream.subrange(data_start, data_start + n))
        },
        None => Ok(stream.subrange(data_start, stream.len() as int)),
    }
}

/// The bytes of the block at `pos`, at most `room` of them, and where the next
/// one starts.
pub open spec fn block_in(
    stream: Seq<u8>,
    pos: int,
    room: nat,
    check: u8,
    run_filter: bool,
) -> Result<(Seq<u8>, int)> {
    let data_start = pos + (stream[pos] + 1) * 4;
    if data_start > stream.len() {
        Err(Error::BadMetadata("xz: block header runs off the stream"))
    } else {
        let body = stream.subrange(pos, data_start - 4);
        if crc32_of(body) != crate::bytes::le32(stream, data_start - 4) {
            Err(Error::BadMetadata("xz: block header checksum mismatch"))
        } else {
            match header_in(body) {
                Err(e) => Err(e),
                Ok(header) => match payload_at(stream, data_start, header.compressed_size) {
                    Err(e) => Err(e),
                    Ok(payload) => block_after_lzma2(
                        stream,
                        pos,
                        data_start,
                        header,
                        check,
                        room,
                        run_filter,
                        whole_block(lzma2_decoded(payload), room + 1),
                    ),
                },
            }
        }
    }
}

/// `out` and the bytes of every block from `pos` up to the index, `max_out`
/// bytes at most.
pub open spec fn blocks_from(
    stream: Seq<u8>,
    pos: int,
    out: Seq<u8>,
    max_out: nat,
    check: u8,
    run_filter: bool,
) -> Result<Seq<u8>>
    decreases stream.len() - pos,
{
    if pos >= stream.len() {
        Err(Error::BadMetadata("xz: stream ends before its index"))
    } else if stream[pos] == 0 {
        Ok(out)
    } else {
        match block_in(stream, pos, (max_out - out.len()) as nat, check, run_filter) {
            Err(e) => Err(e),
            Ok((bytes, next)) => blocks_from(stream, next, out + bytes, max_out, check, run_filter),
        }
    }
}

/// Decodes the block at `pos`, to at most `room` bytes. Returns where the next
/// one starts, too.
#[verifier::rlimit(40)]
fn read_block(stream: &[u8], pos: usize, room: usize, check: u8, run_filter: bool) -> (r: Result<
    (Vec<u8>, usize),
>)
    requires
        pos < stream.len(),
        room < isize::MAX,
        check_len(check) is Ok,
        stream@[pos as int] != 0,
    ensures
        match r {
            Ok((bytes, next)) => {
                &&& block_in(stream@, pos as int, room as nat, check, run_filter) == Ok::<
                    (Seq<u8>, int),
                    Error,
                >((bytes@, next as int))
                &&& bytes.len() <= room
                &&& pos < next <= stream.len()
            },
            Err(e) => block_in(stream@, pos as int, room as nat, check, run_filter) == Err::<
                (Seq<u8>, int),
                Error,
            >(e),
        },
{
    let header_len: usize = (stream[pos] as usize + 1) * 4;
    if header_len > stream.len() - pos {
        return Err(Error::BadMetadata("xz: block header runs off the stream"));
    }
    let data_start: usize = pos + header_len;
    let body: &[u8] = &stream[pos..data_start - 4];
    if crc32(body) != get_le32(stream, data_start - 4) {
        return Err(Error::BadMetadata("xz: block header checksum mismatch"));
    }
    let header: BlockHeader = parse_header(body)?;
    let payload_end: usize = match header.compressed_size {
        Some(n) => {
            if n > usize::MAX as u64 {
                return Err(Error::BadMetadata("xz: compressed size too large"));
            }
            if n > (stream.len() - data_start) as u64 {
                return Err(Error::BadMetadata("xz: compressed size runs off the stream"));
            }
            data_start + n as usize
        },
        None => stream.len(),
    };
    let decoded: Option<(Vec<u8>, usize)> = match lzma2(
        &stream[data_start..payload_end],
        room + 1,
    ) {
        (Some(consumed), block) => Some((block, consumed)),
        (None, _) => None,
    };
    finish_block(stream, pos, data_start, &header, check, room, run_filter, decoded)
}

/// What the xz stream `stream` decodes to.
pub open spec fn stream_decoded(stream: Seq<u8>, max_out: nat, run_filter: bool) -> Result<
    Seq<u8>,
> {
    if stream.len() < 12 || !has_magic(stream) {
        Err(Error::BadMetadata("xz: not an xz stream"))
    } else if crc32_of(stream.subrange(6, 8)) != crate::bytes::le32(stream, 8) || stream[6] != 0 {
        Err(Error::BadMetadata("xz: stream header is damaged"))
    } else {
        let check = stream[7] & 0x0F;
        match check_len(check) {
            Err(e) => Err(e),
            Ok(_) => blocks_from(stream, 12, Seq::empty(), max_out, check, run_filter),
        }
    }
}

/// Decodes a whole xz stream whose blocks may carry one converter before
/// LZMA2, to at most `max_out` bytes.
pub fn decompress(stream: &[u8], max_out: usize) -> (r: Result<Vec<u8>>)
    ensures
        crate::error::bytes_of(r) == stream_decoded(
            stream@,
            crate::decompress::ceiling(max_out),
            true,
        ),
        r matches Ok(out) ==> out.len() <= max_out,
{
    decompress_with(stream, max_out, true)
}

/// [`decompress`], optionally without undoing the converter. The check is
/// then skipped too, since it covers the converted bytes.
#[verifier::rlimit(40)]
pub fn decompress_with(stream: &[u8], max_out: usize, run_filter: bool) -> (r: Result<Vec<u8>>)
    ensures
        crate::error::bytes_of(r) == stream_decoded(
            stream@,
            crate::decompress::ceiling(max_out),
            run_filter,
        ),
        r matches Ok(out) ==> out.len() <= max_out,
{
    if stream.len() < 12 || !starts_with_magic(stream) {
        return Err(Error::BadMetadata("xz: not an xz stream"));
    }
    if crc32(&stream[6..8]) != get_le32(stream, 8) || stream[6] != 0 {
        return Err(Error::BadMetadata("xz: stream header is damaged"));
    }
    let check: u8 = stream[7] & 0x0F;
    length_of_check(check)?;

    let bound: usize = clamped(max_out);
    let mut out: Vec<u8> = Vec::new();
    let mut pos: usize = 12;
    loop
        invariant
            pos <= stream.len(),
            out.len() <= bound < isize::MAX,
            bound == crate::decompress::ceiling(max_out),
            bound <= max_out,
            check_len(check) is Ok,
            blocks_from(stream@, pos as int, out@, bound as nat, check, run_filter)
                == stream_decoded(stream@, bound as nat, run_filter),
        decreases stream.len() - pos,
    {
        if pos >= stream.len() {
            return Err(Error::BadMetadata("xz: stream ends before its index"));
        }
        if stream[pos] == 0 {
            return Ok(out);
        }
        let (mut bytes, next): (Vec<u8>, usize) = read_block(
            stream,
            pos,
            bound - out.len(),
            check,
            run_filter,
        )?;
        out.append(&mut bytes);
        pos = next;
    }
}

// ---- the footer of a stream ----

/// Where the integer at `at` ends, of which `i` bytes were read already,
/// however it is encoded.
pub open spec fn multibyte_end(stream: Seq<u8>, at: int, i: nat) -> Option<int>
    decreases 9 - i,
{
    if i >= 9 || at >= stream.len() {
        None
    } else if stream[at] >= 0x80 {
        multibyte_end(stream, at + 1, i + 1)
    } else {
        Some(at + 1)
    }
}

/// Where the `n` integers from `at` on end.
pub open spec fn multibytes_end(stream: Seq<u8>, at: int, n: nat) -> Option<int>
    decreases n,
{
    if n == 0 {
        Some(at)
    } else {
        match multibyte_end(stream, at, 0) {
            Some(next) => multibytes_end(stream, next, (n - 1) as nat),
            None => None,
        }
    }
}

/// Whether the block at `pos` names more than one filter.
pub open spec fn is_chained(stream: Seq<u8>, pos: int) -> bool {
    stream[pos + 1] & 0x03 != 0
}

/// Where the index of a stream starts, and how many blocks stand before it:
/// `blocks` and those from `pos` on, each followed by a check of `check`
/// bytes. Nothing where a block decodes to more than what is left of `room`.
///
/// What a chain of filters makes of a block is not looked at here: such a
/// block takes no room.
pub open spec fn index_at(
    stream: Seq<u8>,
    pos: int,
    check: nat,
    blocks: nat,
    room: nat,
) -> Option<(int, nat)>
    decreases stream.len() - pos,
{
    if pos < 0 || pos >= stream.len() {
        None
    } else if stream[pos] == 0 {
        Some((pos, blocks))
    } else {
        let data_start = pos + (stream[pos] + 1) * 4;
        if data_start > stream.len() {
            None
        } else {
            let limit = if is_chained(stream, pos) {
                isize::MAX as nat
            } else {
                room
            };
            match whole_block(lzma2_decoded(stream.skip(data_start)), limit) {
                None => None,
                Some((block, consumed)) => {
                    let next = padded_end(pos, data_start + consumed) + check;
                    let left = if is_chained(stream, pos) {
                        room
                    } else {
                        (room - block.len()) as nat
                    };
                    if next > stream.len() {
                        None
                    } else {
                        index_at(stream, next, check, blocks + 1, left)
                    }
                },
            }
        }
    }
}

/// The backward size of a stream, which says how long its index is: the
/// second word of the footer, which follows the index. Nothing where the
/// stream ends before it, or where its blocks decode to more than `room`
/// bytes.
///
/// The index holds the number of blocks and two integers for each, padding
/// to a multiple of four bytes, and a checksum.
pub open spec fn backward_size(stream: Seq<u8>, room: nat) -> Option<u32> {
    if stream.len() < 12 || !has_magic(stream) {
        None
    } else {
        match check_len(stream[7] & 0x0F) {
            Err(_) => None,
            Ok(check) => match index_at(stream, 12, check, 0, room) {
                None => None,
                Some((at, blocks)) => match multibytes_end(stream, at + 1, 1 + 2 * blocks) {
                    None => None,
                    Some(end) => {
                        let word = padded_end(at, end) + 8;
                        if word + 4 <= stream.len() {
                            Some(crate::bytes::le32(stream, word))
                        } else {
                            None
                        }
                    },
                },
            },
        }
    }
}

/// Whether the backward size of a stream is all ones, given room enough. No
/// index is so long.
pub open spec fn is_boundless(stream: Seq<u8>) -> bool {
    exists|room: nat| #[trigger] backward_size(stream, room) == Some(0xFFFF_FFFFu32)
}

/// Whether a word of all ones stands at a multiple of four in `stream`.
spec fn holds_ones(stream: Seq<u8>) -> bool {
    exists|k: int|
        0 <= 4 * k && 4 * k + 4 <= stream.len() && #[trigger] crate::bytes::le32(stream, 4 * k)
            == 0xFFFF_FFFF
}

fn has_ones(stream: &[u8]) -> (r: bool)
    ensures
        r == holds_ones(stream@),
{
    let mut k: usize = 0;
    while stream.len() - k >= 4
        invariant
            k <= stream.len(),
            k % 4 == 0,
            forall|j: int|
                0 <= 4 * j < k ==> #[trigger] crate::bytes::le32(stream@, 4 * j) != 0xFFFF_FFFF,
        decreases stream.len() - k,
    {
        if get_le32(stream, k) == 0xFFFF_FFFF {
            assert(crate::bytes::le32(stream@, 4 * (k as int / 4)) == 0xFFFF_FFFF);
            return true;
        }
        k = k + 4;
    }
    false
}

proof fn lemma_index_is_aligned(stream: Seq<u8>, pos: int, check: nat, blocks: nat, room: nat)
    requires
        pos % 4 == 0,
        check % 4 == 0,
    ensures
        index_at(stream, pos, check, blocks, room) matches Some((at, n)) ==> at % 4 == 0 && n
            >= blocks && at >= pos && at < stream.len(),
    decreases stream.len() - pos,
{
    if 0 <= pos < stream.len() && stream[pos] != 0 {
        let data_start = pos + (stream[pos] + 1) * 4;
        if data_start <= stream.len() {
            let chained = is_chained(stream, pos);
            let limit = if chained {
                isize::MAX as nat
            } else {
                room
            };
            if let Some((block, consumed)) = whole_block(
                lzma2_decoded(stream.skip(data_start)),
                limit,
            ) {
                let next = padded_end(pos, data_start + consumed) + check;
                let left = if chained {
                    room
                } else {
                    (room - block.len()) as nat
                };
                if next <= stream.len() {
                    lemma_index_is_aligned(stream, next, check, blocks + 1, left);
                }
            }
        }
    }
}

/// More room only finds more.
proof fn lemma_index_with_more_room(
    stream: Seq<u8>,
    pos: int,
    check: nat,
    blocks: nat,
    room: nat,
    more: nat,
)
    requires
        room <= more,
    ensures
        index_at(stream, pos, check, blocks, room) is Some ==> index_at(
            stream,
            pos,
            check,
            blocks,
            more,
        ) == index_at(stream, pos, check, blocks, room),
    decreases stream.len() - pos,
{
    if 0 <= pos < stream.len() && stream[pos] != 0 {
        let data_start = pos + (stream[pos] + 1) * 4;
        if data_start <= stream.len() {
            let chained = is_chained(stream, pos);
            let limit = if chained {
                isize::MAX as nat
            } else {
                room
            };
            if let Some((block, consumed)) = whole_block(
                lzma2_decoded(stream.skip(data_start)),
                limit,
            ) {
                let next = padded_end(pos, data_start + consumed) + check;
                if next <= stream.len() {
                    if chained {
                        lemma_index_with_more_room(stream, next, check, blocks + 1, room, more);
                    } else {
                        lemma_index_with_more_room(
                            stream,
                            next,
                            check,
                            blocks + 1,
                            (room - block.len()) as nat,
                            (more - block.len()) as nat,
                        );
                    }
                }
            }
        }
    }
}

/// A backward size that is found in some room is found in more.
pub proof fn backward_size_with_more_room(stream: Seq<u8>, room: nat, more: nat)
    requires
        room <= more,
    ensures
        backward_size(stream, room) is Some ==> backward_size(stream, more) == backward_size(
            stream,
            room,
        ),
{
    if stream.len() >= 12 && has_magic(stream) {
        if let Ok(check) = check_len(stream[7] & 0x0F) {
            lemma_index_with_more_room(stream, 12, check, 0, room, more);
        }
    }
}

proof fn lemma_multibytes_move_on(stream: Seq<u8>, at: int, n: nat)
    ensures
        multibytes_end(stream, at, n) matches Some(end) ==> end >= at,
    decreases n,
{
    if n > 0 {
        lemma_multibyte_moves_on(stream, at, 0);
        if let Some(next) = multibyte_end(stream, at, 0) {
            lemma_multibytes_move_on(stream, next, (n - 1) as nat);
        }
    }
}

proof fn lemma_multibyte_moves_on(stream: Seq<u8>, at: int, i: nat)
    ensures
        multibyte_end(stream, at, i) matches Some(end) ==> at < end <= stream.len(),
    decreases 9 - i,
{
    if i < 9 && at < stream.len() && stream[at] >= 0x80 {
        lemma_multibyte_moves_on(stream, at + 1, i + 1);
    }
}

/// The backward size stands at a multiple of four.
proof fn lemma_backward_size_is_aligned(stream: Seq<u8>, room: nat)
    ensures
        backward_size(stream, room) == Some(0xFFFF_FFFFu32) ==> holds_ones(stream),
{
    if backward_size(stream, room) == Some(0xFFFF_FFFFu32) {
        let check = check_len(stream[7] & 0x0F)->Ok_0;
        lemma_index_is_aligned(stream, 12, check, 0, room);
        let (at, blocks) = index_at(stream, 12, check, 0, room)->0;
        lemma_multibytes_move_on(stream, at + 1, 1 + 2 * blocks);
        let end = multibytes_end(stream, at + 1, 1 + 2 * blocks)->0;
        let word = padded_end(at, end) + 8;
        assert(word % 4 == 0);
        assert(crate::bytes::le32(stream, 4 * (word / 4)) == 0xFFFF_FFFF);
    }
}

fn skip_multibytes(stream: &[u8], at: usize, n: usize) -> (r: Option<usize>)
    requires
        at <= stream.len(),
    ensures
        match r {
            Some(end) => {
                &&& multibytes_end(stream@, at as int, n as nat) == Some(end as int)
                &&& at <= end <= stream.len()
            },
            None => multibytes_end(stream@, at as int, n as nat) is None,
        },
{
    let mut pos: usize = at;
    let mut left: usize = n;
    while left > 0
        invariant
            at <= pos <= stream.len(),
            multibytes_end(stream@, at as int, n as nat) == multibytes_end(
                stream@,
                pos as int,
                left as nat,
            ),
        decreases left,
    {
        let mut i: u8 = 0;
        let ghost first = pos;
        while i < 9 && pos < stream.len() && stream[pos] >= 0x80
            invariant
                i <= 9,
                first <= pos <= stream.len(),
                multibyte_end(stream@, first as int, 0) == multibyte_end(
                    stream@,
                    pos as int,
                    i as nat,
                ),
            decreases 9 - i,
        {
            pos = pos + 1;
            i = i + 1;
        }
        if i >= 9 || pos >= stream.len() {
            return None;
        }
        pos = pos + 1;
        left = left - 1;
    }
    Some(pos)
}

/// Whether the backward size of `stream` is all ones, as far as its blocks
/// decode to at most `room` bytes.
#[verifier::rlimit(40)]
pub fn has_boundless_index(stream: &[u8], room: usize) -> (r: bool)
    requires
        room <= isize::MAX,
    ensures
        r == (backward_size(stream@, room as nat) == Some(0xFFFF_FFFFu32)),
{
    proof {
        lemma_backward_size_is_aligned(stream@, room as nat);
    }
    if !has_ones(stream) || stream.len() < 12 || !starts_with_magic(stream) {
        return false;
    }
    let check: usize = match length_of_check(stream[7] & 0x0F) {
        Ok(n) => n,
        Err(_) => return false,
    };
    let mut left: usize = room;
    let mut pos: usize = 12;
    let mut blocks: usize = 0;
    while pos < stream.len() && stream[pos] != 0
        invariant
            12 <= pos,
            pos <= stream.len(),
            8 * blocks <= pos,
            left <= isize::MAX,
            check <= 32,
            check_len(stream@[7] & 0x0F) == Ok::<nat, Error>(check as nat),
            index_at(stream@, 12, check as nat, 0, room as nat) == index_at(
                stream@,
                pos as int,
                check as nat,
                blocks as nat,
                left as nat,
            ),
            stream.len() >= 12,
            has_magic(stream@),
        decreases stream.len() - pos,
    {
        let header_len: usize = (stream[pos] as usize + 1) * 4;
        if header_len > stream.len() - pos {
            return false;
        }
        let data_start: usize = pos + header_len;
        assert(stream@.subrange(data_start as int, stream.len() as int) =~= stream@.skip(
            data_start as int,
        ));
        let chained: bool = stream[pos + 1] & 0x03 != 0;
        let limit: usize = if chained {
            isize::MAX as usize
        } else {
            left
        };
        let (consumed, taken): (usize, usize) = match lzma2(
            &stream[data_start..stream.len()],
            limit,
        ) {
            (Some(consumed), block) => (consumed, block.len()),
            (None, _) => return false,
        };
        let end: usize = data_start + consumed;
        let pad: usize = (4 - (end - pos) % 4) % 4;
        if pad > stream.len() - end || check > stream.len() - end - pad {
            return false;
        }
        if !chained {
            left = left - taken;
        }
        pos = end + pad + check;
        blocks = blocks + 1;
    }
    if pos >= stream.len() {
        return false;
    }
    let end: usize = match skip_multibytes(stream, pos + 1, 1 + 2 * blocks) {
        Some(end) => end,
        None => return false,
    };
    let pad: usize = (4 - (end - pos) % 4) % 4;
    if stream.len() - end < pad + 12 {
        return false;
    }
    get_le32(stream, end + pad + 8) == 0xFFFF_FFFF
}

// ---- laws ----

/// What a block gives under another bound.
proof fn lemma_block_at_another_bound(
    stream: Seq<u8>,
    pos: int,
    n: nat,
    m: nat,
    check: u8,
    run_filter: bool,
)
    requires
        pos < stream.len(),
    ensures
        block_in(stream, pos, n, check, run_filter) matches Ok((bytes, next)) ==> {
            let other = block_in(stream, pos, m, check, run_filter);
            &&& bytes.len() <= n
            &&& pos < next <= stream.len()
            &&& bytes.len() <= m ==> other == Ok::<(Seq<u8>, int), Error>((bytes, next))
            &&& bytes.len() > m ==> other matches Err(Error::BadMetadata(_))
        },
{
    let data_start = pos + (stream[pos] + 1) * 4;
    if data_start <= stream.len() {
        if let Ok(header) = header_in(stream.subrange(pos, data_start - 4)) {
            if let Ok(payload) = payload_at(stream, data_start, header.compressed_size) {
                if let Some((kind, start)) = header.bcj {
                    crate::bcj::decoded_keeps_the_length(kind, start, lzma2_decoded(payload).1);
                }
            }
        }
    }
}

proof fn lemma_blocks_at_another_bound(
    stream: Seq<u8>,
    pos: int,
    out: Seq<u8>,
    n: nat,
    m: nat,
    check: u8,
    run_filter: bool,
)
    requires
        out.len() <= n,
        out.len() <= m,
    ensures
        blocks_from(stream, pos, out, n, check, run_filter) matches Ok(all) ==> {
            let other = blocks_from(stream, pos, out, m, check, run_filter);
            &&& out.len() <= all.len() <= n
            &&& all.len() <= m ==> other == Ok::<Seq<u8>, Error>(all)
            &&& all.len() > m ==> other matches Err(Error::BadMetadata(_))
        },
    decreases stream.len() - pos,
{
    if pos < stream.len() && stream[pos] != 0 {
        let room_n = (n - out.len()) as nat;
        let room_m = (m - out.len()) as nat;
        lemma_block_at_another_bound(stream, pos, room_n, room_m, check, run_filter);
        if let Ok((bytes, next)) = block_in(stream, pos, room_n, check, run_filter) {
            if bytes.len() <= room_m {
                lemma_blocks_at_another_bound(
                    stream,
                    next,
                    out + bytes,
                    n,
                    m,
                    check,
                    run_filter,
                );
            } else {
                lemma_blocks_at_another_bound(
                    stream,
                    next,
                    out + bytes,
                    n,
                    n,
                    check,
                    run_filter,
                );
            }
        }
    }
}

/// The bound only refuses: a stream that decodes under one bound decodes to
/// the same bytes under every bound that holds them, and is an error, never a
/// shorter result, under any other.
pub proof fn stream_decoded_at_another_bound(stream: Seq<u8>, n: nat, m: nat, run_filter: bool)
    ensures
        stream_decoded(stream, n, run_filter) matches Ok(plain) ==> {
            let other = stream_decoded(stream, m, run_filter);
            &&& plain.len() <= n
            &&& plain.len() <= m ==> other == Ok::<Seq<u8>, Error>(plain)
            &&& plain.len() > m ==> other matches Err(Error::BadMetadata(_))
        },
{
    if stream.len() >= 12 {
        lemma_blocks_at_another_bound(
            stream,
            12,
            Seq::empty(),
            n,
            m,
            stream[7] & 0x0F,
            run_filter,
        );
    }
}

} // verus!
