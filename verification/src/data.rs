//! The data of regular files: data blocks, and tails in fragment blocks.
//!
//! A file is stored in blocks of the image's block size, each compressed on
//! its own, one after the other. What is left over at the end may stand in a
//! fragment block that several files share.

use std::sync::Arc;

use vstd::prelude::*;

use crate::cache::{BlockCache, CacheState, Entry};
use crate::decompress::{decompress, Compressor};
use crate::device::BlockRead;
use crate::error::{Error, Result};
use crate::inode::{FileType, Inode, InodeData};
use crate::table::{data_is_compressed, data_on_disk_size, FragmentEntry};

verus! {

/// What the data of an image's files is read by.
#[verifier::ext_equal]
pub struct Volume {
    pub comp: Compressor,
    pub block_size: u32,
    pub fragments: Seq<FragmentEntry>,
}

// ---- one block as it stands on disk ----

/// The data block at `abs` with the given size word, decompressed to at most
/// `max_out` bytes. No block is larger on disk than the image's blocks are.
#[verifier::opaque]
pub open spec fn data_block_at(
    image: Seq<u8>,
    comp: Compressor,
    block_size: u32,
    abs: u64,
    size_word: u32,
    max_out: nat,
) -> Result<Seq<u8>> {
    let on_disk = crate::table::on_disk_size(size_word);
    if on_disk > block_size {
        Err(Error::BadInode("data block's on-disk size exceeds the archive's block size"))
    } else {
        match crate::device::served(image, abs as nat, on_disk as nat) {
            Err(e) => Err(Error::Block(e)),
            Ok(raw) => if crate::table::is_compressed(size_word) {
                crate::decompress::decompressed(comp, raw, max_out)
            } else if raw.len() > max_out {
                Err(Error::BadInode("uncompressed data block exceeds block size"))
            } else {
                Ok(raw)
            },
        }
    }
}

/// How a data block is encoded, as one number: its size word, and above it
/// the bound on what it decompresses to.
pub open spec fn encoding(size_word: u32, max_out: u32) -> u64 {
    (size_word + 0x1_0000_0000 * max_out) as u64
}

/// Whether a cached block is what the image has at its offset, read as its
/// encoding says.
pub open spec fn is_data_of(image: Seq<u8>, comp: Compressor, block_size: u32) -> spec_fn(
    Entry,
) -> bool {
    |entry: Entry|
        data_block_at(
            image,
            comp,
            block_size,
            entry.0.0,
            (entry.0.1 % 0x1_0000_0000) as u32,
            (entry.0.1 / 0x1_0000_0000) as nat,
        ) == Ok::<Seq<u8>, Error>(entry.1)
}

/// The cache is in order and fits the image: all it holds was read from
/// there.
pub open spec fn data_cache_fits(
    cache: BlockCache,
    image: Seq<u8>,
    comp: Compressor,
    block_size: u32,
) -> bool {
    cache.wf() && crate::cache::all_entries(cache@, is_data_of(image, comp, block_size))
}

fn read_data_block_uncached<R: BlockRead>(
    dev: &R,
    comp: Compressor,
    block_size: u32,
    abs: u64,
    size_word: u32,
    max_out: u32,
) -> (r: Result<Vec<u8>>)
    requires
        max_out <= 0x10_0000,
    ensures
        crate::error::outcome(
            dev.dependable() || crate::table::on_disk_size(size_word) > block_size,
            crate::error::bytes_of(r),
            data_block_at(dev.image(), comp, block_size, abs, size_word, max_out as nat),
        ),
        r matches Ok(b) ==> b.len() <= max_out,
{
    reveal(data_block_at);
    let on_disk: u32 = data_on_disk_size(size_word);
    if on_disk > block_size {
        return Err(
            Error::BadInode("data block's on-disk size exceeds the archive's block size"),
        );
    }
    let raw: Vec<u8> = match dev.read_at(abs, on_disk as usize) {
        Ok(b) => b,
        Err(e) => return Err(Error::Block(e)),
    };
    if data_is_compressed(size_word) {
        decompress(comp, raw.as_slice(), max_out as usize)
    } else if raw.len() > max_out as usize {
        Err(Error::BadInode("uncompressed data block exceeds block size"))
    } else {
        Ok(raw)
    }
}

/// The cache after a data block was read through it.
pub open spec fn data_block_cache(
    image: Seq<u8>,
    comp: Compressor,
    block_size: u32,
    abs: u64,
    size_word: u32,
    max_out: u32,
    cache: CacheState,
) -> CacheState {
    let key = (abs, encoding(size_word, max_out));
    let looked = cache.after_lookup(key);
    match data_block_at(image, comp, block_size, abs, size_word, max_out as nat) {
        Ok(b) if !cache.holds(key) => looked.after_insert((key, b, 0)),
        _ => looked,
    }
}

/// Reads and decompresses one data block. A block that the cache holds comes
/// back without touching the device or the codec; a block read otherwise is
/// put in.
pub fn read_data_block<R: BlockRead>(
    dev: &R,
    comp: Compressor,
    block_size: u32,
    abs: u64,
    size_word: u32,
    max_out: u32,
    cache: &mut BlockCache,
) -> (r: Result<Arc<Vec<u8>>>)
    requires
        max_out <= 0x10_0000,
        data_cache_fits(*old(cache), dev.image(), comp, block_size),
    ensures
        data_cache_fits(*final(cache), dev.image(), comp, block_size),
        final(cache)@.capacity == old(cache)@.capacity,
        crate::error::outcome(
            dev.dependable() || crate::table::on_disk_size(size_word) > block_size,
            match r {
                Ok(b) => Ok(b@),
                Err(e) => Err(e),
            },
            data_block_at(dev.image(), comp, block_size, abs, size_word, max_out as nat),
        ),
        crate::error::settled(dev.dependable(), r) ==> final(cache)@ == data_block_cache(
            dev.image(),
            comp,
            block_size,
            abs,
            size_word,
            max_out,
            old(cache)@,
        ),
        old(cache)@.holds((abs, encoding(size_word, max_out))) ==> r is Ok,
        final(cache)@ == ({
            let key = (abs, encoding(size_word, max_out));
            let looked = old(cache)@.after_lookup(key);
            match r {
                Ok(b) if !old(cache)@.holds(key) => looked.after_insert((key, b@, 0)),
                _ => looked,
            }
        }),
{
    let shape: u64 = size_word as u64 + 0x1_0000_0000 * max_out as u64;
    let ghost key = (abs, shape);
    let ghost before = cache@;
    let ghost fitting = is_data_of(dev.image(), comp, block_size);
    proof {
        crate::cache::lemma_place(before.entries, key);
        crate::cache::cache_keeps_what_all_entries_satisfy(
            before,
            fitting,
            (key, Seq::empty(), 0),
        );
    }
    if let Some((bytes, _)) = cache.get((abs, shape)) {
        assert(fitting(before.held(key)));
        return Ok(bytes);
    }
    let bytes: Vec<u8> = read_data_block_uncached(
        dev,
        comp,
        block_size,
        abs,
        size_word,
        max_out,
    )?;
    proof {
        crate::cache::cache_keeps_what_all_entries_satisfy(
            cache@,
            fitting,
            (key, bytes@, 0),
        );
    }
    let shared: Arc<Vec<u8>> = Arc::new(bytes);
    cache.insert((abs, shape), Arc::clone(&shared), 0);
    Ok(shared)
}

// ---- the blocks of a file ----

/// Where the data block at index `i` starts: behind all blocks before it. A
/// sum that leaves a `u64` saturates, which gives an offset that no device
/// reaches.
pub open spec fn block_start(d: InodeData, i: nat) -> u64
    decreases i,
{
    if i == 0 {
        d.blocks_start
    } else {
        let sum = block_start(d, (i - 1) as nat) + crate::table::on_disk_size(
            d.block_sizes[i - 1],
        );
        if sum > u64::MAX {
            u64::MAX
        } else {
            sum as u64
        }
    }
}

/// The start of each data block of a file.
pub fn block_offsets(inode: &Inode) -> (r: Vec<u64>)
    ensures
        r@ == Seq::new(inode.block_sizes@.len(), |i: int| block_start(inode@, i as nat)),
{
    let mut offsets: Vec<u64> = Vec::new();
    let mut start: u64 = inode.blocks_start;
    let mut i: usize = 0;
    while i < inode.block_sizes.len()
        invariant
            i <= inode.block_sizes.len(),
            start == block_start(inode@, i as nat),
            offsets@ == Seq::new(i as nat, |k: int| block_start(inode@, k as nat)),
        decreases inode.block_sizes.len() - i,
    {
        offsets.push(start);
        start = start.saturating_add(data_on_disk_size(inode.block_sizes[i]) as u64);
        i = i + 1;
        assert(offsets@ =~= Seq::new(i as nat, |k: int| block_start(inode@, k as nat)));
    }
    offsets
}

/// How many bytes of a file stand in its block at index `i`.
pub open spec fn block_len(file_size: nat, block_size: nat, i: nat) -> nat {
    let left = file_size - i * block_size;
    if left < block_size {
        left as nat
    } else {
        block_size
    }
}

/// The tail of a file in its fragment block.
pub open spec fn tail_in(d: InodeData, block_size: nat, fragment: Seq<u8>) -> Result<Seq<u8>> {
    let start = d.fragment_offset as nat;
    let end = start + (d.file_size - d.block_sizes.len() * block_size);
    if end > usize::MAX {
        Err(Error::BadInode("fragment offset overflow"))
    } else if end > fragment.len() {
        Err(Error::BadInode("fragment tail past fragment block end"))
    } else {
        Ok(fragment.subrange(start as int, end))
    }
}

/// Block `i` of a file, decompressed: a data block, or else the tail in its
/// fragment block. A data block without a payload is all zeros. One that
/// decodes to another length than its place in the file calls for is
/// corrupt.
pub open spec fn logical_block(image: Seq<u8>, vol: Volume, d: InodeData, i: nat) -> Result<
    Seq<u8>,
> {
    if i < d.block_sizes.len() {
        let size_word = d.block_sizes[i as int];
        let len = block_len(d.file_size as nat, vol.block_size as nat, i);
        if crate::table::on_disk_size(size_word) == 0 {
            Ok(Seq::new(len, |k: int| 0u8))
        } else {
            match data_block_at(
                image,
                vol.comp,
                vol.block_size,
                block_start(d, i),
                size_word,
                len,
            ) {
                Err(e) => Err(e),
                Ok(b) => if b.len() != len {
                    Err(Error::BadInode("data block decoded to the wrong length"))
                } else {
                    Ok(b)
                },
            }
        }
    } else if d.has_tail() {
        if d.fragment_index >= vol.fragments.len() {
            Err(Error::BadInode("fragment index out of range"))
        } else {
            let fragment = vol.fragments[d.fragment_index as int];
            match data_block_at(
                image,
                vol.comp,
                vol.block_size,
                fragment.start,
                fragment.size,
                vol.block_size as nat,
            ) {
                Err(e) => Err(e),
                Ok(b) => tail_in(d, vol.block_size as nat, b),
            }
        }
    } else {
        Err(Error::OutOfRange)
    }
}

/// Whether the device or the cache is asked for block `i` of a file.
pub open spec fn logical_block_is_read(vol: Volume, d: InodeData, i: nat) -> bool {
    if i < d.block_sizes.len() {
        0 < crate::table::on_disk_size(d.block_sizes[i as int]) <= vol.block_size
    } else {
        d.has_tail() && d.fragment_index < vol.fragments.len() && crate::table::on_disk_size(
            vol.fragments[d.fragment_index as int].size,
        ) <= vol.block_size
    }
}

/// The cache after block `i` of a file was read through it.
pub open spec fn logical_block_cache(
    image: Seq<u8>,
    vol: Volume,
    d: InodeData,
    i: nat,
    cache: CacheState,
) -> CacheState {
    if i < d.block_sizes.len() {
        let size_word = d.block_sizes[i as int];
        if crate::table::on_disk_size(size_word) == 0 {
            cache
        } else {
            data_block_cache(
                image,
                vol.comp,
                vol.block_size,
                block_start(d, i),
                size_word,
                block_len(d.file_size as nat, vol.block_size as nat, i) as u32,
                cache,
            )
        }
    } else if d.has_tail() && d.fragment_index < vol.fragments.len() {
        let fragment = vol.fragments[d.fragment_index as int];
        data_block_cache(
            image,
            vol.comp,
            vol.block_size,
            fragment.start,
            fragment.size,
            vol.block_size,
            cache,
        )
    } else {
        cache
    }
}

proof fn lemma_blocks_before(n: nat, i: nat, block_size: nat, file_size: nat)
    requires
        n <= i,
        i * block_size < file_size,
    ensures
        n * block_size < file_size,
{
    assert(n * block_size <= i * block_size) by (nonlinear_arith)
        requires
            n <= i,
    ;
}

/// Reads block `i` of a file.
#[verifier::rlimit(40)]
pub fn read_logical_block<R: BlockRead>(
    dev: &R,
    comp: Compressor,
    block_size: u32,
    fragments: &Vec<FragmentEntry>,
    inode: &Inode,
    i: u64,
    offsets: &Vec<u64>,
    cache: &mut BlockCache,
) -> (r: Result<Arc<Vec<u8>>>)
    requires
        0 < block_size <= 0x10_0000,
        i * block_size < inode.file_size,
        offsets@ == Seq::new(inode.block_sizes@.len(), |k: int| block_start(inode@, k as nat)),
        data_cache_fits(*old(cache), dev.image(), comp, block_size),
    ensures
        data_cache_fits(*final(cache), dev.image(), comp, block_size),
        final(cache)@.capacity == old(cache)@.capacity,
        ({
            let vol = Volume { comp, block_size, fragments: fragments@ };
            &&& crate::error::outcome(
                dev.dependable() || !logical_block_is_read(vol, inode@, i as nat),
                match r {
                    Ok(b) => Ok(b@),
                    Err(e) => Err(e),
                },
                logical_block(dev.image(), vol, inode@, i as nat),
            )
            &&& crate::error::settled(dev.dependable(), r) ==> final(cache)@
                == logical_block_cache(dev.image(), vol, inode@, i as nat, old(cache)@)
        }),
{
    let n_full: usize = inode.block_sizes.len();
    if i < n_full as u64 {
        let left: u64 = inode.file_size - i * block_size as u64;
        let len: u32 = if left < block_size as u64 {
            left as u32
        } else {
            block_size
        };
        let size_word: u32 = inode.block_sizes[i as usize];
        if data_on_disk_size(size_word) == 0 {
            let zeros: Vec<u8> = vec![0u8; len as usize];
            assert(zeros@ =~= Seq::new(len as nat, |k: int| 0u8));
            return Ok(Arc::new(zeros));
        }
        let block: Arc<Vec<u8>> = read_data_block(
            dev,
            comp,
            block_size,
            offsets[i as usize],
            size_word,
            len,
            cache,
        )?;
        if block.len() != len as usize {
            return Err(Error::BadInode("data block decoded to the wrong length"));
        }
        Ok(block)
    } else if inode.has_fragment() {
        if inode.fragment_index as usize >= fragments.len() {
            return Err(Error::BadInode("fragment index out of range"));
        }
        let fragment: FragmentEntry = fragments[inode.fragment_index as usize];
        let block: Arc<Vec<u8>> = read_data_block(
            dev,
            comp,
            block_size,
            fragment.start,
            fragment.size,
            block_size,
            cache,
        )?;
        proof {
            lemma_blocks_before(
                n_full as nat,
                i as nat,
                block_size as nat,
                inode.file_size as nat,
            );
        }
        let tail: u64 = inode.file_size - n_full as u64 * block_size as u64;
        let start: usize = inode.fragment_offset as usize;
        if tail > (usize::MAX - start) as u64 {
            return Err(Error::BadInode("fragment offset overflow"));
        }
        let end: usize = start + tail as usize;
        if end > block.len() {
            return Err(Error::BadInode("fragment tail past fragment block end"));
        }
        let mut bytes: Vec<u8> = Vec::new();
        bytes.extend_from_slice(&block.as_slice()[start..end]);
        assert(bytes@ =~= block@.subrange(start as int, end as int));
        Ok(Arc::new(bytes))
    } else {
        Err(Error::OutOfRange)
    }
}

// ---- spans of a file ----

/// The bytes of a file from `pos` up to `end`, block by block; the error of
/// the first block that cannot be had.
pub open spec fn span(image: Seq<u8>, vol: Volume, d: InodeData, pos: nat, end: nat) -> Result<
    Seq<u8>,
>
    decreases end - pos,
{
    if pos >= end {
        Ok(Seq::empty())
    } else {
        let bs = vol.block_size as nat;
        match logical_block(image, vol, d, pos / bs) {
            Err(e) => Err(e),
            Ok(block) => {
                let off = pos % bs;
                if off >= block.len() {
                    Err(Error::BadInode("data block shorter than the offset read from it"))
                } else {
                    let take = if block.len() - off < end - pos {
                        (block.len() - off) as nat
                    } else {
                        (end - pos) as nat
                    };
                    match span(image, vol, d, pos + take, end) {
                        Err(e) => Err(e),
                        Ok(rest) => Ok(
                            block.subrange(off as int, (off + take) as int) + rest,
                        ),
                    }
                }
            },
        }
    }
}

/// A span within one block is that part of the block.
proof fn lemma_piece_is_span(image: Seq<u8>, vol: Volume, d: InodeData, pos: nat, take: nat)
    requires
        vol.block_size > 0,
        take > 0,
        logical_block(image, vol, d, pos / vol.block_size as nat) matches Ok(block) && pos
            % vol.block_size as nat + take <= block.len(),
    ensures
        span(image, vol, d, pos, pos + take) == Ok::<Seq<u8>, Error>(
            (logical_block(image, vol, d, pos / vol.block_size as nat)->Ok_0).subrange(
                (pos % vol.block_size as nat) as int,
                (pos % vol.block_size as nat + take) as int,
            ),
        ),
{
    let off = pos % vol.block_size as nat;
    let block = logical_block(image, vol, d, pos / vol.block_size as nat)->Ok_0;
    let piece = block.subrange(off as int, (off + take) as int);
    assert(span(image, vol, d, pos + take, pos + take) == Ok::<Seq<u8>, Error>(Seq::empty()));
    assert(piece + Seq::<u8>::empty() =~= piece);
}

/// How many bytes a read of up to `wanted` bytes at `offset` gives: all of
/// them, or as many as there are before the end of the file.
pub open spec fn read_len(file_size: nat, offset: nat, wanted: nat) -> nat {
    if offset >= file_size {
        0
    } else if file_size - offset < wanted {
        (file_size - offset) as nat
    } else {
        wanted
    }
}

/// What a read of up to `wanted` bytes of a file at `offset` gives.
pub open spec fn file_read(
    image: Seq<u8>,
    vol: Volume,
    d: InodeData,
    offset: nat,
    wanted: nat,
) -> Result<Seq<u8>> {
    if d.kind() != FileType::RegFile {
        Err(Error::BadInode("read_file on non-file"))
    } else {
        span(
            image,
            vol,
            d,
            offset,
            offset + read_len(d.file_size as nat, offset, wanted),
        )
    }
}

/// Whether the device or the cache is asked for anything in a read of up to
/// `wanted` bytes of a file at `offset`.
pub open spec fn file_is_read(vol: Volume, d: InodeData, offset: nat, wanted: nat) -> bool {
    let n = read_len(d.file_size as nat, offset, wanted);
    let bs = vol.block_size as nat;
    d.kind() == FileType::RegFile && n > 0 && exists|i: nat|
        offset / bs <= i && i * bs < offset + n && #[trigger] logical_block_is_read(vol, d, i)
}

/// The cache after the bytes of a file from `pos` up to `end` were read
/// through it.
pub open spec fn span_cache(
    image: Seq<u8>,
    vol: Volume,
    d: InodeData,
    pos: nat,
    end: nat,
    cache: CacheState,
) -> CacheState
    decreases end - pos,
{
    if pos >= end {
        cache
    } else {
        let bs = vol.block_size as nat;
        let after = logical_block_cache(image, vol, d, pos / bs, cache);
        match logical_block(image, vol, d, pos / bs) {
            Err(_) => after,
            Ok(block) => {
                let off = pos % bs;
                if off >= block.len() {
                    after
                } else {
                    let take = if block.len() - off < end - pos {
                        (block.len() - off) as nat
                    } else {
                        (end - pos) as nat
                    };
                    span_cache(image, vol, d, pos + take, end, after)
                }
            },
        }
    }
}

/// The cache after a read of up to `wanted` bytes of a file at `offset`.
pub open spec fn file_cache(
    image: Seq<u8>,
    vol: Volume,
    d: InodeData,
    offset: nat,
    wanted: nat,
    cache: CacheState,
) -> CacheState {
    if d.kind() != FileType::RegFile {
        cache
    } else {
        span_cache(
            image,
            vol,
            d,
            offset,
            offset + read_len(d.file_size as nat, offset, wanted),
            cache,
        )
    }
}

/// Whether `after` is the buffer `before` with some bytes of the file from
/// `offset` on at its start, and all else as it was.
pub open spec fn partly_filled(
    image: Seq<u8>,
    vol: Volume,
    d: InodeData,
    offset: nat,
    before: Seq<u8>,
    after: Seq<u8>,
) -> bool {
    exists|k: nat|
        k <= before.len() && span(image, vol, d, offset, offset + k) == Ok::<Seq<u8>, Error>(
            #[trigger] after.take(k as int),
        ) && after.skip(k as int) == before.skip(k as int)
}

/// Copies `src[from..from + n]` to `dst[at..at + n]`.
fn copy_into(dst: &mut [u8], at: usize, src: &Vec<u8>, from: usize, n: usize)
    requires
        at + n <= old(dst)@.len(),
        from + n <= src@.len(),
    ensures
        final(dst)@ == old(dst)@.take(at as int) + src@.subrange(from as int, from + n) + old(
            dst,
        )@.skip(at + n),
{
    let ghost before = dst@;
    let total: usize = dst.len();
    let have: usize = src.len();
    let mut k: usize = 0;
    while k < n
        invariant
            k <= n,
            at + n <= total,
            total == dst@.len(),
            before.len() == total,
            have == src@.len(),
            from + n <= have,
            dst@ == before.take(at as int) + src@.subrange(from as int, from + k) + before.skip(
                at + k,
            ),
        decreases n - k,
    {
        dst[at + k] = src[from + k];
        k = k + 1;
        assert(dst@ =~= before.take(at as int) + src@.subrange(from as int, from + k)
            + before.skip(at + k));
    }
    assert(dst@ =~= before.take(at as int) + src@.subrange(from as int, from + n) + before.skip(
        at + n,
    ));
}

/// The block at a place that a read comes to is one of its blocks.
proof fn lemma_block_of_read(vol: Volume, d: InodeData, offset: nat, wanted: nat, pos: nat)
    requires
        vol.block_size > 0,
        d.kind() == FileType::RegFile,
        offset <= pos < offset + read_len(d.file_size as nat, offset, wanted),
    ensures
        ({
            let bs = vol.block_size as nat;
            &&& (pos / bs) * bs <= pos
            &&& logical_block_is_read(vol, d, pos / bs) ==> file_is_read(vol, d, offset, wanted)
        }),
{
    let bs = vol.block_size as nat;
    vstd::arithmetic::div_mod::lemma_fundamental_div_mod(pos as int, bs as int);
    assert((pos / bs) * bs == bs * (pos / bs)) by (nonlinear_arith);
    vstd::arithmetic::div_mod::lemma_div_is_ordered(offset as int, pos as int, bs as int);
}

/// What the buffer holds after one more piece of a file was copied into it.
proof fn lemma_copied(
    image: Seq<u8>,
    vol: Volume,
    d: InodeData,
    offset: nat,
    before: Seq<u8>,
    earlier: Seq<u8>,
    now: Seq<u8>,
    written: nat,
    take: nat,
)
    requires
        vol.block_size > 0,
        take > 0,
        offset + written + take <= d.file_size,
        written + take <= before.len(),
        earlier.len() == before.len(),
        span(image, vol, d, offset, offset + written) == Ok::<Seq<u8>, Error>(
            earlier.take(written as int),
        ),
        earlier.skip(written as int) == before.skip(written as int),
        ({
            let pos = offset + written;
            let off = pos % vol.block_size as nat;
            &&& logical_block(image, vol, d, pos / vol.block_size as nat) matches Ok(block)
            &&& off + take <= block.len()
            &&& now == earlier.take(written as int) + block.subrange(
                off as int,
                (off + take) as int,
            ) + earlier.skip((written + take) as int)
        }),
    ensures
        span(image, vol, d, offset, offset + written + take) == Ok::<Seq<u8>, Error>(
            now.take((written + take) as int),
        ),
        now.skip((written + take) as int) == before.skip((written + take) as int),
        partly_filled(image, vol, d, offset, before, now),
{
    let pos = offset + written;
    let done = written + take;
    span_in_pieces(image, vol, d, offset, pos, pos + take);
    lemma_piece_is_span(image, vol, d, pos, take);
    let piece = span(image, vol, d, pos, pos + take)->Ok_0;
    assert(now.take(done as int) =~= earlier.take(written as int) + piece);
    assert(earlier.skip(done as int) =~= earlier.skip(written as int).skip(take as int));
    assert(before.skip(done as int) =~= before.skip(written as int).skip(take as int));
    assert(now.skip(done as int) =~= earlier.skip(done as int));
    assert(offset + done == pos + take);
}

/// Reads up to `buf.len()` bytes of a regular file at `offset` into `buf`.
/// Returns how many: fewer than asked for only at the end of the file.
#[verifier::rlimit(40)]
pub fn read_file_data<R: BlockRead>(
    dev: &R,
    comp: Compressor,
    block_size: u32,
    fragments: &Vec<FragmentEntry>,
    inode: &Inode,
    offset: u64,
    buf: &mut [u8],
    cache: &mut BlockCache,
) -> (r: Result<usize>)
    requires
        0 < block_size <= 0x10_0000,
        data_cache_fits(*old(cache), dev.image(), comp, block_size),
    ensures
        data_cache_fits(*final(cache), dev.image(), comp, block_size),
        final(cache)@.capacity == old(cache)@.capacity,
        final(buf)@.len() == old(buf)@.len(),
        ({
            let want = file_read(
                dev.image(),
                Volume { comp, block_size, fragments: fragments@ },
                inode@,
                offset as nat,
                old(buf)@.len(),
            );
            let n = read_len(inode.file_size as nat, offset as nat, old(buf)@.len()) as int;
            &&& final(buf)@.skip(n) == old(buf)@.skip(n)
            &&& match r {
                Ok(got) => {
                    &&& got == n
                    &&& want == Ok::<Seq<u8>, Error>(final(buf)@.take(n))
                },
                Err(e) => want == Err::<Seq<u8>, Error>(e) || (!dev.dependable() && e is Block
                    && file_is_read(
                    Volume { comp, block_size, fragments: fragments@ },
                    inode@,
                    offset as nat,
                    old(buf)@.len(),
                )),
            }
        }),
        r is Err ==> partly_filled(
            dev.image(),
            Volume { comp, block_size, fragments: fragments@ },
            inode@,
            offset as nat,
            old(buf)@,
            final(buf)@,
        ),
        crate::error::settled(dev.dependable(), r) ==> final(cache)@ == file_cache(
            dev.image(),
            Volume { comp, block_size, fragments: fragments@ },
            inode@,
            offset as nat,
            old(buf)@.len(),
            old(cache)@,
        ),
{
    proof {
        let vol = Volume { comp, block_size, fragments: fragments@ };
        assert(buf@.take(0) =~= Seq::empty());
        assert(partly_filled(dev.image(), vol, inode@, offset as nat, buf@, buf@));
    }
    if !inode.is_regular_file() {
        return Err(Error::BadInode("read_file on non-file"));
    }
    let size: u64 = inode.file_size;
    let wanted: usize = buf.len();
    if offset >= size || wanted == 0 {
        assert(buf@.take(0) =~= Seq::empty());
        return Ok(0);
    }
    let to_read: usize = if size - offset < wanted as u64 {
        (size - offset) as usize
    } else {
        wanted
    };
    let bs: u64 = block_size as u64;
    let offsets: Vec<u64> = block_offsets(inode);
    let ghost vol = Volume { comp, block_size, fragments: fragments@ };
    let ghost image = dev.image();
    let ghost end = (offset + to_read) as nat;
    let ghost want = span(image, vol, inode@, offset as nat, end);
    let ghost after = span_cache(image, vol, inode@, offset as nat, end, cache@);
    let ghost before = buf@;
    let mut written: usize = 0;
    assert(buf@.take(0) =~= Seq::empty());
    while written < to_read
        invariant
            0 < block_size <= 0x10_0000,
            bs == block_size,
            vol == (Volume { comp, block_size, fragments: fragments@ }),
            image == dev.image(),
            size == inode.file_size,
            written <= to_read <= buf@.len(),
            offset + to_read <= size,
            end == offset + to_read,
            buf@.len() == before.len(),
            before == old(buf)@,
            want == file_read(image, vol, inode@, offset as nat, before.len()),
            to_read == read_len(size as nat, offset as nat, before.len()),
            offsets@ == Seq::new(
                inode.block_sizes@.len(),
                |k: int| block_start(inode@, k as nat),
            ),
            data_cache_fits(*cache, dev.image(), comp, block_size),
            cache@.capacity == old(cache)@.capacity,
            inode@.kind() == FileType::RegFile,
            to_read > 0,
            after == file_cache(image, vol, inode@, offset as nat, before.len(), old(cache)@),
            after == span_cache(image, vol, inode@, (offset + written) as nat, end, cache@),
            span(image, vol, inode@, offset as nat, (offset + written) as nat) == Ok::<
                Seq<u8>,
                Error,
            >(buf@.take(written as int)),
            buf@.skip(written as int) == before.skip(written as int),
            partly_filled(image, vol, inode@, offset as nat, before, buf@),
            want == span(image, vol, inode@, offset as nat, end),
        ensures
            written == to_read,
        decreases to_read - written,
    {
        let pos: u64 = offset + written as u64;
        let index: u64 = pos / bs;
        let off: usize = (pos % bs) as usize;
        proof {
            lemma_block_of_read(
                vol,
                inode@,
                offset as nat,
                before.len(),
                (offset + written) as nat,
            );
            span_in_pieces(image, vol, inode@, offset as nat, pos as nat, end);
            assert(buf@.skip(to_read as int) =~= buf@.skip(written as int).skip(
                to_read - written,
            ));
            assert(before.skip(to_read as int) =~= before.skip(written as int).skip(
                to_read - written,
            ));
        }
        let block: Arc<Vec<u8>> = read_logical_block(
            dev,
            comp,
            block_size,
            fragments,
            inode,
            index,
            &offsets,
            cache,
        )?;
        let have: usize = block.len();
        if off >= have {
            return Err(Error::BadInode("data block shorter than the offset read from it"));
        }
        let take: usize = if have - off < to_read - written {
            have - off
        } else {
            to_read - written
        };
        let ghost earlier = buf@;
        copy_into(buf, written, &*block, off, take);
        proof {
            lemma_copied(
                image,
                vol,
                inode@,
                offset as nat,
                before,
                earlier,
                buf@,
                written as nat,
                take as nat,
            );
        }
        written = written + take;
    }
    Ok(written)
}

// ---- laws ----

/// No data block is larger than it was asked to be at most.
pub proof fn data_block_is_bounded(
    image: Seq<u8>,
    comp: Compressor,
    block_size: u32,
    abs: u64,
    size_word: u32,
    max_out: nat,
)
    ensures
        data_block_at(image, comp, block_size, abs, size_word, max_out) matches Ok(b) ==> b.len()
            <= max_out,
{
    reveal(data_block_at);
    let on_disk = crate::table::on_disk_size(size_word);
    if let Ok(raw) = crate::device::served(image, abs as nat, on_disk as nat) {
        crate::decompress::decompressed_is_bounded(comp, raw, max_out);
    }
}

/// A data block that was read once is read again from the cache: the second
/// read finds it, and puts nothing in.
pub proof fn second_data_read_is_a_hit(
    image: Seq<u8>,
    comp: Compressor,
    block_size: u32,
    abs: u64,
    size_word: u32,
    max_out: u32,
    before: CacheState,
)
    requires
        data_block_at(image, comp, block_size, abs, size_word, max_out as nat) is Ok,
        before.capacity > 0,
    ensures
        ({
            let first = data_block_cache(
                image,
                comp,
                block_size,
                abs,
                size_word,
                max_out,
                before,
            );
            let second = data_block_cache(
                image,
                comp,
                block_size,
                abs,
                size_word,
                max_out,
                first,
            );
            &&& first.holds((abs, encoding(size_word, max_out)))
            &&& second.hits == first.hits.wrapping_add(1)
            &&& second.misses == first.misses
            &&& second.entries == first.entries
        }),
{
    let b = data_block_at(image, comp, block_size, abs, size_word, max_out as nat)->Ok_0;
    crate::cache::second_lookup_is_a_hit(before, ((abs, encoding(size_word, max_out)), b, 0u64));
}

/// Every block of a file has exactly the length that its place in the file
/// calls for: the block size, or what is left of the file.
pub proof fn logical_block_has_its_length(image: Seq<u8>, vol: Volume, d: InodeData, i: nat)
    requires
        vol.block_size > 0,
        i * vol.block_size < d.file_size,
    ensures
        logical_block(image, vol, d, i) matches Ok(b) ==> b.len() == block_len(
            d.file_size as nat,
            vol.block_size as nat,
            i,
        ),
{
    let bs = vol.block_size as int;
    let size = d.file_size as int;
    let n = d.block_sizes.len();
    if i >= n && d.has_tail() && d.fragment_index < vol.fragments.len() {
        let fragment = vol.fragments[d.fragment_index as int];
        data_block_is_bounded(
            image,
            vol.comp,
            vol.block_size,
            fragment.start,
            fragment.size,
            vol.block_size as nat,
        );
        lemma_blocks_before(n, i, bs as nat, size as nat);
        // A tail fits a fragment block, so it is that of the last block.
        if size - n * bs <= bs {
            if i > n {
                assert(i * bs >= (n + 1) * bs) by (nonlinear_arith)
                    requires
                        i >= n + 1,
                        bs > 0,
                ;
                assert((n + 1) * bs == n * bs + bs) by (nonlinear_arith);
            }
        }
    }
}

proof fn lemma_in_block(pos: nat, bs: nat, size: nat)
    requires
        bs > 0,
        pos < size,
    ensures
        (pos / bs) * bs + pos % bs == pos,
        (pos / bs) * bs < size,
        pos % bs < bs,
        pos % bs < block_len(size, bs, pos / bs),
        block_len(size, bs, pos / bs) <= bs,
        pos - pos % bs + block_len(size, bs, pos / bs) <= size,
{
    vstd::arithmetic::div_mod::lemma_fundamental_div_mod(pos as int, bs as int);
    assert((pos / bs) * bs == bs * (pos / bs)) by (nonlinear_arith);
}

/// A span gives all the bytes it covers.
pub proof fn span_gives_all(image: Seq<u8>, vol: Volume, d: InodeData, pos: nat, end: nat)
    requires
        vol.block_size > 0,
        pos <= end,
    ensures
        span(image, vol, d, pos, end) matches Ok(s) ==> s.len() == end - pos,
    decreases end - pos,
{
    if pos < end {
        let bs = vol.block_size as nat;
        match logical_block(image, vol, d, pos / bs) {
            Err(_) => {},
            Ok(block) => {
                let off = pos % bs;
                if off < block.len() {
                    let take = if block.len() - off < end - pos {
                        (block.len() - off) as nat
                    } else {
                        (end - pos) as nat
                    };
                    span_gives_all(image, vol, d, pos + take, end);
                }
            },
        }
    }
}

/// Reading a file in two pieces is reading it in one: the same bytes, and
/// the same error where there is one.
pub proof fn span_in_pieces(image: Seq<u8>, vol: Volume, d: InodeData, a: nat, b: nat, c: nat)
    requires
        vol.block_size > 0,
        a <= b <= c <= d.file_size,
    ensures
        span(image, vol, d, a, c) == (match span(image, vol, d, a, b) {
            Err(e) => Err(e),
            Ok(first) => match span(image, vol, d, b, c) {
                Err(e) => Err(e),
                Ok(second) => Ok(first + second),
            },
        }),
    decreases b - a,
{
    let bs = vol.block_size as nat;
    let size = d.file_size as nat;
    if a == b {
        let whole = span(image, vol, d, a, c);
        if whole is Ok {
            assert(Seq::<u8>::empty() + whole->Ok_0 =~= whole->Ok_0);
        }
    } else {
        lemma_in_block(a, bs, size);
        let i = a / bs;
        let off = a % bs;
        logical_block_has_its_length(image, vol, d, i);
        match logical_block(image, vol, d, i) {
            Err(_) => {},
            Ok(block) => {
                let len = block.len();
                let to_end = (len - off) as nat;
                if b - a >= to_end {
                    span_in_pieces(image, vol, d, a + to_end, b, c);
                    let piece = block.subrange(off as int, (off + to_end) as int);
                    let mid = span(image, vol, d, a + to_end, b);
                    let rest = span(image, vol, d, b, c);
                    if mid is Ok && rest is Ok {
                        assert(piece + (mid->Ok_0 + rest->Ok_0) =~= (piece + mid->Ok_0)
                            + rest->Ok_0);
                    }
                } else {
                    let part = (b - a) as nat;
                    let first = block.subrange(off as int, (off + part) as int);
                    assert(span(image, vol, d, b, b) == Ok::<Seq<u8>, Error>(Seq::empty()));
                    assert(first + Seq::<u8>::empty() =~= first);
                    assert(span(image, vol, d, a, b) == Ok::<Seq<u8>, Error>(first));
                    if b == c {
                        assert(first + Seq::<u8>::empty() =~= first);
                    } else {
                        assert(i * bs == bs * i) by (nonlinear_arith);
                        vstd::arithmetic::div_mod::lemma_fundamental_div_mod_converse(
                            b as int,
                            bs as int,
                            i as int,
                            (off + part) as int,
                        );
                        let take = if to_end - part < c - b {
                            (to_end - part) as nat
                        } else {
                            (c - b) as nat
                        };
                        let second = block.subrange(
                            (off + part) as int,
                            (off + part + take) as int,
                        );
                        let rest = span(image, vol, d, b + take, c);
                        assert(block.subrange(off as int, (off + part + take) as int) =~= first
                            + second);
                        assert(a + (part + take) == b + take);
                        if rest is Ok {
                            assert((first + second) + rest->Ok_0 =~= first + (second
                                + rest->Ok_0));
                        }
                    }
                }
            },
        }
    }
}

/// Where a whole file can be read, any part of it can, and is that part of
/// the whole.
pub proof fn span_is_part_of_the_file(image: Seq<u8>, vol: Volume, d: InodeData, a: nat, b: nat)
    requires
        vol.block_size > 0,
        a <= b <= d.file_size,
        span(image, vol, d, 0, d.file_size as nat) is Ok,
    ensures
        span(image, vol, d, 0, d.file_size as nat) matches Ok(all) && all.len() == d.file_size
            && span(image, vol, d, a, b) == Ok::<Seq<u8>, Error>(
            all.subrange(a as int, b as int),
        ),
{
    let size = d.file_size as nat;
    span_in_pieces(image, vol, d, 0, a, size);
    span_in_pieces(image, vol, d, a, b, size);
    span_gives_all(image, vol, d, 0, a);
    span_gives_all(image, vol, d, a, b);
    span_gives_all(image, vol, d, b, size);
    let all = span(image, vol, d, 0, size)->Ok_0;
    let before = span(image, vol, d, 0, a)->Ok_0;
    let part = span(image, vol, d, a, b)->Ok_0;
    let after = span(image, vol, d, b, size)->Ok_0;
    assert(all =~= before + (part + after));
    assert(all.subrange(a as int, b as int) =~= part);
}

/// Every byte of a file is the byte of its block at its place.
pub proof fn span_byte_is_of_its_block(
    image: Seq<u8>,
    vol: Volume,
    d: InodeData,
    a: nat,
    b: nat,
    pos: nat,
)
    requires
        vol.block_size > 0,
        a <= pos < b <= d.file_size,
        span(image, vol, d, a, b) is Ok,
    ensures
        ({
            let bs = vol.block_size as nat;
            let s = span(image, vol, d, a, b)->Ok_0;
            logical_block(image, vol, d, pos / bs) matches Ok(block) && s[pos - a] == block[(pos
                % bs) as int]
        }),
{
    let bs = vol.block_size as nat;
    span_in_pieces(image, vol, d, a, pos, b);
    span_gives_all(image, vol, d, a, pos);
    let first = span(image, vol, d, a, pos)->Ok_0;
    let second = span(image, vol, d, pos, b)->Ok_0;
    let block = logical_block(image, vol, d, pos / bs)->Ok_0;
    assert(second[0] == block[(pos % bs) as int]);
    assert((first + second)[pos - a] == second[0]);
}

/// Where a file can be read whole, every read of it succeeds and gives the
/// bytes of the whole that it asks for, as far as there are any: reads of any
/// length put the file together again.
pub proof fn reads_are_parts_of_the_file(
    image: Seq<u8>,
    vol: Volume,
    d: InodeData,
    offset: nat,
    wanted: nat,
)
    requires
        vol.block_size > 0,
        file_read(image, vol, d, 0, d.file_size as nat) is Ok,
    ensures
        file_read(image, vol, d, 0, d.file_size as nat) matches Ok(all) && all.len() == d.file_size
            && file_read(image, vol, d, offset, wanted) == Ok::<Seq<u8>, Error>(
            if offset < d.file_size {
                all.subrange(
                    offset as int,
                    (offset + read_len(d.file_size as nat, offset, wanted)) as int,
                )
            } else {
                Seq::empty()
            },
        ),
{
    let size = d.file_size as nat;
    let n = read_len(size, offset, wanted);
    span_gives_all(image, vol, d, 0, size);
    if offset < size {
        span_is_part_of_the_file(image, vol, d, offset, offset + n);
    }
}

/// A read gives fewer bytes than asked for only where the file ends.
pub proof fn read_is_short_only_at_the_end(
    image: Seq<u8>,
    vol: Volume,
    d: InodeData,
    offset: nat,
    wanted: nat,
)
    requires
        vol.block_size > 0,
        offset <= d.file_size,
    ensures
        file_read(image, vol, d, offset, wanted) matches Ok(bytes) ==> bytes.len() <= wanted && (
        bytes.len() < wanted ==> offset + bytes.len() == d.file_size),
{
    span_gives_all(
        image,
        vol,
        d,
        offset,
        offset + read_len(d.file_size as nat, offset, wanted),
    );
}

/// A read at or behind the end of a file gives nothing, and is no error.
pub proof fn read_behind_the_end_is_empty(
    image: Seq<u8>,
    vol: Volume,
    d: InodeData,
    offset: nat,
    wanted: nat,
)
    requires
        d.kind() == FileType::RegFile,
        offset >= d.file_size,
    ensures
        file_read(image, vol, d, offset, wanted) == Ok::<Seq<u8>, Error>(Seq::empty()),
{
}

/// A data block without a payload reads as zeros, whatever the image holds.
pub proof fn sparse_block_is_zeros(image: Seq<u8>, vol: Volume, d: InodeData, i: nat)
    requires
        i < d.block_sizes.len(),
        crate::table::on_disk_size(d.block_sizes[i as int]) == 0,
    ensures
        logical_block(image, vol, d, i) matches Ok(b) && forall|k: int|
            0 <= k < b.len() ==> #[trigger] b[k] == 0,
{
}

/// The blocks of a file follow each other on disk, as long as their offsets
/// stay within a `u64`.
pub proof fn blocks_follow_each_other(d: InodeData, i: nat)
    requires
        i < d.block_sizes.len(),
        block_start(d, i) + crate::table::on_disk_size(d.block_sizes[i as int]) <= u64::MAX,
    ensures
        block_start(d, i + 1) == block_start(d, i) + crate::table::on_disk_size(
            d.block_sizes[i as int],
        ),
{
}

} // verus!
