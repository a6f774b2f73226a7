//! Metadata blocks, and a reader over a run of them.
//!
//! Inodes, directory listings and the indirect tables are stored in metadata
//! blocks of at most 8 KiB. Each is preceded by a little-endian `u16`: bit 15
//! set means that the payload is stored as it is, the other bits are the
//! size of the payload on disk.
//!
//! A record can run over the end of a block, so [`MetaCursor`] presents the
//! blocks as one stream of bytes and pulls them as they are needed.
//! [`MetaCache`] keeps them decompressed.

use std::sync::Arc;

use vstd::prelude::*;

use crate::bytes::{get_le16, get_le32, get_le64, to_signed16};
use crate::cache::{BlockCache, CacheState, Entry};
use crate::decompress;
use crate::device::BlockRead;
use crate::error::{Error, Result};
use crate::superblock::{Superblock, METADATA_SIZE};

verus! {

/// Set in a block's header where the payload is stored UNCOMPRESSED.
pub const UNCOMPRESSED_BIT: u16 = 0x8000;

// ---- one block ----

/// The payload of a block, decompressed unless it is stored as it is.
pub open spec fn payload_bytes(compression_id: u16, header: u16, payload: Seq<u8>) -> Result<
    Seq<u8>,
> {
    if header >= UNCOMPRESSED_BIT {
        Ok(payload)
    } else {
        match decompress::compressor_of(compression_id) {
            Err(e) => Err(e),
            Ok(comp) => decompress::decompressed(comp, payload, METADATA_SIZE as nat),
        }
    }
}

/// The metadata block whose header is at `abs`, decompressed, and where the
/// next one starts.
#[verifier::opaque]
pub open spec fn block_at(image: Seq<u8>, compression_id: u16, abs: nat) -> Result<
    (Seq<u8>, nat),
> {
    match crate::device::served(image, abs, 2) {
        Err(e) => Err(Error::Block(e)),
        Ok(header) => {
            let raw = crate::bytes::le16(header, 0);
            let on_disk = (raw % UNCOMPRESSED_BIT) as nat;
            if on_disk == 0 || on_disk > METADATA_SIZE {
                Err(Error::BadMetadata("metadata block size out of range"))
            } else {
                match crate::device::served(image, abs + 2, on_disk) {
                    Err(e) => Err(Error::Block(e)),
                    Ok(payload) => match payload_bytes(compression_id, raw, payload) {
                        Err(e) => Err(e),
                        Ok(bytes) => Ok((bytes, abs + 2 + on_disk)),
                    },
                }
            }
        },
    }
}

/// What a read of a block returned, against what the image calls for.
pub open spec fn block_outcome(
    dependable: bool,
    got: Result<(Seq<u8>, u64)>,
    want: Result<(Seq<u8>, nat)>,
) -> bool {
    match got {
        Ok((bytes, next)) => want == Ok::<(Seq<u8>, nat), Error>((bytes, next as nat)),
        Err(e) => want == Err::<(Seq<u8>, nat), Error>(e) || (!dependable && e is Block),
    }
}

/// The decompression itself, with no cache in front of it.
pub fn read_block_uncached<R: BlockRead>(dev: &R, sb: &Superblock, abs: u64) -> (r: Result<
    (Vec<u8>, u64),
>)
    ensures
        block_outcome(
            dev.dependable(),
            match r {
                Ok((bytes, next)) => Ok((bytes@, next)),
                Err(e) => Err(e),
            },
            block_at(dev.image(), sb.compression_id, abs as nat),
        ),
        r matches Ok((bytes, next)) ==> bytes.len() <= METADATA_SIZE && abs + 2 < next <= abs + 2
            + METADATA_SIZE,
{
    proof {
        block_is_bounded(dev.image(), sb.compression_id, abs as nat);
    }
    reveal(block_at);
    let size: u64 = dev.size_bytes();
    let header: Vec<u8> = match dev.read_at(abs, 2) {
        Ok(b) => b,
        Err(e) => return Err(Error::Block(e)),
    };
    let raw: u16 = get_le16(header.as_slice(), 0);
    let on_disk: usize = (raw % UNCOMPRESSED_BIT) as usize;
    if on_disk == 0 || on_disk > METADATA_SIZE {
        return Err(Error::BadMetadata("metadata block size out of range"));
    }
    assert(abs + 2 <= size);
    let payload: Vec<u8> = match dev.read_at(abs + 2, on_disk) {
        Ok(b) => b,
        Err(e) => return Err(Error::Block(e)),
    };
    assert(abs + 2 + on_disk <= size);
    let next: u64 = abs + 2 + on_disk as u64;
    if raw >= UNCOMPRESSED_BIT {
        return Ok((payload, next));
    }
    let bytes: Vec<u8> = decompress::decompress(
        sb.compressor()?,
        payload.as_slice(),
        METADATA_SIZE,
    )?;
    Ok((bytes, next))
}

// ---- the cache of blocks ----

/// A cache of decompressed metadata blocks, by the absolute offset of a
/// block's header.
///
/// Where the next block starts is kept with the bytes: it depends on the
/// size on disk, which stands in the header that a hit never reads.
pub struct MetaCache {
    blocks: BlockCache,
}

impl View for MetaCache {
    type V = CacheState;

    closed spec fn view(&self) -> CacheState {
        self.blocks@
    }
}

/// Whether a cached block is what the image has at its offset.
pub open spec fn is_block_of(image: Seq<u8>, compression_id: u16) -> spec_fn(Entry) -> bool {
    |entry: Entry|
        entry.0.1 == 0 && block_at(image, compression_id, entry.0.0 as nat) == Ok::<
            (Seq<u8>, nat),
            Error,
        >((entry.1, entry.2 as nat))
}

impl MetaCache {
    /// The cache is in order.
    pub closed spec fn wf(&self) -> bool {
        self.blocks.wf()
    }

    /// The cache is in order and fits the image: all it holds was read from
    /// there.
    pub open spec fn fits(&self, image: Seq<u8>, compression_id: u16) -> bool {
        self.wf() && crate::cache::all_entries(self@, is_block_of(image, compression_id))
    }

    /// A cache holding at most `capacity` decompressed blocks. Zero switches
    /// it off.
    pub fn new(capacity: usize) -> (r: MetaCache)
        requires
            capacity <= isize::MAX / 64,
        ensures
            r@ == CacheState::empty(capacity as nat),
            r.wf(),
            forall|image: Seq<u8>, compression_id: u16| #[trigger] r.fits(image, compression_id),
    {
        MetaCache { blocks: BlockCache::new(capacity) }
    }

    /// Resizes the cache, or switches it off at zero. Drops whatever was held
    /// and restarts the counters.
    pub fn set_capacity(&mut self, capacity: usize)
        requires
            capacity <= isize::MAX / 64,
        ensures
            final(self)@ == CacheState::empty(capacity as nat),
            final(self).wf(),
            forall|image: Seq<u8>, compression_id: u16| #[trigger]
                final(self).fits(image, compression_id),
    {
        self.blocks.set_capacity(capacity);
    }

    /// `(entries, capacity, hits, misses)`, for tests and diagnostics.
    pub fn stats(&self) -> (r: (usize, usize, u64, u64))
        ensures
            r.0 == self@.entries.len(),
            r.1 == self@.capacity,
            r.2 == self@.hits,
            r.3 == self@.misses,
    {
        self.blocks.stats()
    }
}

/// A cache in order holds no more blocks than it was made for.
pub proof fn meta_cache_is_within_capacity(cache: &MetaCache)
    requires
        cache.wf(),
    ensures
        cache@.entries.len() <= cache@.capacity,
{
    crate::cache::cache_is_within_capacity(&cache.blocks);
}

/// The cache after a block was read through it.
pub open spec fn cache_after_read(
    before: CacheState,
    abs: u64,
    got: Result<(Seq<u8>, u64)>,
) -> CacheState {
    let looked = before.after_lookup((abs, 0));
    if before.holds((abs, 0)) {
        looked
    } else {
        match got {
            Ok((bytes, next)) => looked.after_insert(((abs, 0), bytes, next)),
            Err(_) => looked,
        }
    }
}

/// The cache after the block at `abs` was read through it.
pub open spec fn cache_after_block(
    image: Seq<u8>,
    compression_id: u16,
    abs: nat,
    before: CacheState,
) -> CacheState {
    cache_after_read(
        before,
        abs as u64,
        match block_at(image, compression_id, abs) {
            Ok((bytes, next)) => Ok((bytes, next as u64)),
            Err(e) => Err(e),
        },
    )
}

/// Reads and decompresses the metadata block whose header is at `abs`.
/// Returns the bytes and where the next block starts.
///
/// A block that the cache holds comes back without touching the device or
/// the codec; a block read otherwise is put in.
pub fn read_block<R: BlockRead>(
    dev: &R,
    sb: &Superblock,
    abs: u64,
    cache: &mut MetaCache,
) -> (r: Result<(Arc<Vec<u8>>, u64)>)
    requires
        old(cache).fits(dev.image(), sb.compression_id),
    ensures
        final(cache).fits(dev.image(), sb.compression_id),
        ({
            let got = match r {
                Ok((bytes, next)) => Ok((bytes@, next)),
                Err(e) => Err(e),
            };
            &&& block_outcome(
                dev.dependable(),
                got,
                block_at(dev.image(), sb.compression_id, abs as nat),
            )
            &&& final(cache)@ == cache_after_read(old(cache)@, abs, got)
            &&& old(cache)@.holds((abs, 0)) ==> r is Ok
        }),
        crate::error::settled(dev.dependable(), r) ==> final(cache)@ == cache_after_block(
            dev.image(),
            sb.compression_id,
            abs as nat,
            old(cache)@,
        ),
        final(cache)@.capacity == old(cache)@.capacity,
        r matches Ok((bytes, next)) ==> bytes@.len() <= METADATA_SIZE && abs + 2 < next <= abs + 2
            + METADATA_SIZE,
{
    proof {
        block_is_bounded(dev.image(), sb.compression_id, abs as nat);
    }
    let ghost before = cache@;
    let ghost fitting = is_block_of(dev.image(), sb.compression_id);
    proof {
        crate::cache::lemma_place(before.entries, (abs, 0));
        crate::cache::cache_keeps_what_all_entries_satisfy(
            before,
            fitting,
            ((abs, 0), Seq::empty(), 0),
        );
    }
    if let Some((bytes, next)) = cache.blocks.get((abs, 0)) {
        assert(fitting(before.held((abs, 0))));
        return Ok((bytes, next));
    }
    let (bytes, next): (Vec<u8>, u64) = read_block_uncached(dev, sb, abs)?;
    proof {
        crate::cache::cache_keeps_what_all_entries_satisfy(
            cache@,
            fitting,
            ((abs, 0), bytes@, next),
        );
    }
    let shared: Arc<Vec<u8>> = Arc::new(bytes);
    cache.blocks.insert((abs, 0), Arc::clone(&shared), next);
    Ok((shared, next))
}

// ---- references ----

/// A metadata reference: which metadata block, and where inside it.
#[derive(Debug, Clone, Copy, PartialEq, Eq, Structural)]
pub struct MetadataRef {
    /// Offset of the block from the start of its table.
    pub block_offset: u64,
    /// Byte offset of the record inside the decompressed block.
    pub in_block: u16,
}

impl MetadataRef {
    /// The reference that `packed` holds: the upper 48 bits are the offset of
    /// the block, the lower 16 the offset within it.
    pub open spec fn unpacked(packed: u64) -> MetadataRef {
        MetadataRef { block_offset: packed / 0x1_0000, in_block: (packed % 0x1_0000) as u16 }
    }

    /// The absolute offset of the block, given the start of its table.
    pub open spec fn absolute(self, table_start: u64) -> u64 {
        if table_start + self.block_offset > u64::MAX {
            u64::MAX
        } else {
            (table_start + self.block_offset) as u64
        }
    }

    /// Splits a packed reference.
    pub fn from_packed(packed: u64) -> (r: Self)
        ensures
            r == MetadataRef::unpacked(packed),
    {
        MetadataRef { block_offset: packed / 0x1_0000, in_block: (packed % 0x1_0000) as u16 }
    }

    /// The absolute offset of the block on the device, given the start of
    /// its table.
    ///
    /// Both come from the image, and between them they can leave a `u64`.
    /// The sum then saturates, which gives an offset that no device reaches:
    /// the read fails and says so.
    pub fn start_abs(self, table_start: u64) -> (r: u64)
        ensures
            r == self.absolute(table_start),
    {
        table_start.saturating_add(self.block_offset)
    }
}

/// Splitting a reference loses nothing: its halves give it back.
pub proof fn reference_halves_give_it_back(packed: u64)
    ensures
        packed == 0x1_0000 * MetadataRef::unpacked(packed).block_offset + MetadataRef::unpacked(
            packed,
        ).in_block,
{
}

/// Every pair of halves is the split of one reference: their packing.
pub proof fn reference_of_halves(block_offset: u64, in_block: u16)
    requires
        block_offset < 0x1_0000_0000_0000,
    ensures
        MetadataRef::unpacked((0x1_0000 * block_offset + in_block) as u64) == (MetadataRef {
            block_offset,
            in_block,
        }),
{
}

// ---- a run of blocks as a stream ----

/// Where a reader stands in a run of metadata blocks.
#[verifier::ext_equal]
pub struct Stream {
    /// Where the next block starts.
    pub next_abs: nat,
    /// What is left of the blocks read so far.
    pub rest: Seq<u8>,
}

/// The stream from `in_block` bytes into the block at `abs`.
pub open spec fn stream_at(image: Seq<u8>, compression_id: u16, abs: nat, in_block: nat) -> Result<
    Stream,
> {
    match block_at(image, compression_id, abs) {
        Err(e) => Err(e),
        Ok((bytes, next)) => if in_block > bytes.len() {
            Err(Error::BadMetadata("metadata reference offset past block end"))
        } else {
            Ok(Stream { next_abs: next, rest: bytes.skip(in_block as int) })
        },
    }
}

/// The next `n` bytes of a stream, and the stream behind them.
pub open spec fn stream_read(
    image: Seq<u8>,
    compression_id: u16,
    at: Stream,
    n: nat,
) -> Result<(Seq<u8>, Stream)>
    decreases image.len() - at.next_abs,
    via stream_read_decreases
{
    if at.rest.len() >= n {
        Ok(
            (
                at.rest.take(n as int),
                Stream { next_abs: at.next_abs, rest: at.rest.skip(n as int) },
            ),
        )
    } else {
        match block_at(image, compression_id, at.next_abs) {
            Err(e) => Err(e),
            Ok((bytes, next)) => if bytes.len() == 0 {
                Err(Error::BadMetadata("empty metadata block while reading record"))
            } else {
                stream_read(
                    image,
                    compression_id,
                    Stream { next_abs: next, rest: at.rest + bytes },
                    n,
                )
            },
        }
    }
}

#[via_fn]
proof fn stream_read_decreases(image: Seq<u8>, compression_id: u16, at: Stream, n: nat) {
    block_ends_behind_its_start(image, compression_id, at.next_abs);
}

/// The block after a block starts behind it, inside the image or at its end.
pub proof fn block_ends_behind_its_start(image: Seq<u8>, compression_id: u16, abs: nat)
    ensures
        block_at(image, compression_id, abs) matches Ok((_, next)) ==> abs < next <= image.len(),
{
    reveal(block_at);
}

/// A metadata block is never larger than 8 KiB, on disk or decompressed, and
/// the next one starts behind its payload.
pub proof fn block_is_bounded(image: Seq<u8>, compression_id: u16, abs: nat)
    ensures
        block_at(image, compression_id, abs) matches Ok((bytes, next)) ==> bytes.len()
            <= METADATA_SIZE && abs + 2 < next <= abs + 2 + METADATA_SIZE && next <= image.len(),
{
    reveal(block_at);
    if let Ok(header) = crate::device::served(image, abs, 2) {
        let raw = crate::bytes::le16(header, 0);
        let on_disk = (raw % UNCOMPRESSED_BIT) as nat;
        if let Ok(payload) = crate::device::served(image, abs + 2, on_disk) {
            if let Ok(comp) = decompress::compressor_of(compression_id) {
                decompress::decompressed_is_bounded(comp, payload, METADATA_SIZE as nat);
            }
        }
    }
}

/// A block that was read once is read again from the cache: the second read
/// finds it, and puts nothing in. A cache that is switched off stays as it
/// is.
pub proof fn second_read_is_a_hit(
    image: Seq<u8>,
    compression_id: u16,
    abs: nat,
    before: CacheState,
)
    requires
        block_at(image, compression_id, abs) is Ok,
    ensures
        ({
            let first = cache_after_block(image, compression_id, abs, before);
            let second = cache_after_block(image, compression_id, abs, first);
            &&& before.capacity == 0 && before.entries.len() == 0 ==> first == before && second
                == before
            &&& before.capacity > 0 ==> {
                &&& first.holds((abs as u64, 0))
                &&& second.hits == first.hits.wrapping_add(1)
                &&& second.misses == first.misses
                &&& second.entries == first.entries
            }
        }),
{
    let (bytes, next) = block_at(image, compression_id, abs)->Ok_0;
    let entry = ((abs as u64, 0u64), bytes, next as u64);
    crate::cache::second_lookup_is_a_hit(before, entry);
}

/// The cache after the next `n` bytes of a stream were read through it: every
/// block that the read pulls was looked for, and put in where it was not
/// held.
pub open spec fn stream_cache(
    image: Seq<u8>,
    compression_id: u16,
    at: Stream,
    n: nat,
    cache: CacheState,
) -> CacheState
    decreases image.len() - at.next_abs,
    via stream_cache_decreases
{
    if at.rest.len() >= n {
        cache
    } else {
        let pulled = cache_after_block(image, compression_id, at.next_abs, cache);
        match block_at(image, compression_id, at.next_abs) {
            Err(_) => pulled,
            Ok((bytes, next)) => if bytes.len() == 0 {
                pulled
            } else {
                stream_cache(
                    image,
                    compression_id,
                    Stream { next_abs: next, rest: at.rest + bytes },
                    n,
                    pulled,
                )
            },
        }
    }
}

#[via_fn]
proof fn stream_cache_decreases(
    image: Seq<u8>,
    compression_id: u16,
    at: Stream,
    n: nat,
    cache: CacheState,
) {
    block_ends_behind_its_start(image, compression_id, at.next_abs);
}

/// The cache after a record of `n` bytes was read through it, which stands
/// `in_block` bytes into the block at `abs`.
pub open spec fn record_cache(
    image: Seq<u8>,
    compression_id: u16,
    abs: nat,
    in_block: nat,
    n: nat,
    cache: CacheState,
) -> CacheState {
    let first = cache_after_block(image, compression_id, abs, cache);
    match stream_at(image, compression_id, abs, in_block) {
        Err(_) => first,
        Ok(s) => stream_cache(image, compression_id, s, n, first),
    }
}

/// Reading in two pieces pulls the blocks that reading in one pulls.
pub proof fn stream_cache_in_pieces(
    image: Seq<u8>,
    compression_id: u16,
    at: Stream,
    n: nat,
    m: nat,
    cache: CacheState,
)
    ensures
        stream_cache(image, compression_id, at, n + m, cache) == ({
            let first = stream_cache(image, compression_id, at, n, cache);
            match stream_read(image, compression_id, at, n) {
                Err(_) => first,
                Ok((_, mid)) => stream_cache(image, compression_id, mid, m, first),
            }
        }),
    decreases image.len() - at.next_abs,
{
    block_ends_behind_its_start(image, compression_id, at.next_abs);
    if at.rest.len() < n + m {
        if let Ok((bytes, next)) = block_at(image, compression_id, at.next_abs) {
            if bytes.len() > 0 {
                let pulled = Stream { next_abs: next, rest: at.rest + bytes };
                let after = cache_after_block(image, compression_id, at.next_abs, cache);
                stream_cache_in_pieces(image, compression_id, pulled, n, m, after);
                if at.rest.len() >= n {
                    assert(pulled.rest.take(n as int) =~= at.rest.take(n as int));
                    assert(pulled.rest.skip(n as int) =~= at.rest.skip(n as int) + bytes);
                }
            }
        }
    }
}

/// Reading in two pieces is reading in one: it gives the same bytes, leaves
/// the stream at the same place, and fails with the same error.
pub proof fn stream_read_in_pieces(
    image: Seq<u8>,
    compression_id: u16,
    at: Stream,
    n: nat,
    m: nat,
)
    ensures
        stream_read(image, compression_id, at, n + m) == (match stream_read(
            image,
            compression_id,
            at,
            n,
        ) {
            Err(e) => Err(e),
            Ok((first, mid)) => match stream_read(image, compression_id, mid, m) {
                Err(e) => Err(e),
                Ok((second, end)) => Ok((first + second, end)),
            },
        }),
    decreases image.len() - at.next_abs,
{
    block_ends_behind_its_start(image, compression_id, at.next_abs);
    if at.rest.len() >= n + m {
        assert(at.rest.take(n as int) + at.rest.skip(n as int).take(m as int) =~= at.rest.take(
            (n + m) as int,
        ));
        assert(at.rest.skip(n as int).skip(m as int) =~= at.rest.skip((n + m) as int));
    } else {
        match block_at(image, compression_id, at.next_abs) {
            Err(_) => {},
            Ok((bytes, next)) => {
                if bytes.len() > 0 {
                    let pulled = Stream { next_abs: next, rest: at.rest + bytes };
                    stream_read_in_pieces(image, compression_id, pulled, n, m);
                    if at.rest.len() >= n {
                        assert(pulled.rest.take(n as int) =~= at.rest.take(n as int));
                        assert(pulled.rest.skip(n as int) =~= at.rest.skip(n as int) + bytes);
                    }
                }
            },
        }
    }
}

/// A read of `n` bytes gives `n` bytes.
pub proof fn stream_read_gives_all(image: Seq<u8>, compression_id: u16, at: Stream, n: nat)
    ensures
        stream_read(image, compression_id, at, n) matches Ok((bytes, _)) ==> bytes.len() == n,
    decreases image.len() - at.next_abs,
{
    block_ends_behind_its_start(image, compression_id, at.next_abs);
    if at.rest.len() < n {
        match block_at(image, compression_id, at.next_abs) {
            Err(_) => {},
            Ok((bytes, next)) => {
                if bytes.len() > 0 {
                    stream_read_gives_all(
                        image,
                        compression_id,
                        Stream { next_abs: next, rest: at.rest + bytes },
                        n,
                    );
                }
            },
        }
    }
}

/// The cursor's window onto decompressed metadata.
///
/// Nearly every cursor reads a few bytes out of one block and stops, and
/// shares the cached block as it stands. Only a record that runs over the
/// end of a block needs bytes of its own.
pub enum Window {
    /// One block, shared.
    Whole(Arc<Vec<u8>>),
    /// The tail of one block followed by whole blocks after it.
    Spliced(Vec<u8>),
}

impl Window {
    /// The bytes of the window.
    pub open spec fn view(&self) -> Seq<u8> {
        match *self {
            Window::Whole(b) => b@,
            Window::Spliced(b) => b@,
        }
    }

    /// The bytes of the window.
    pub fn bytes(&self) -> (r: &[u8])
        ensures
            r@ == self@,
    {
        match self {
            Window::Whole(b) => b.as_slice(),
            Window::Spliced(b) => b.as_slice(),
        }
    }
}

/// A reader over a run of metadata blocks, which decompresses them as it
/// comes to them.
pub struct MetaCursor<'a, R: BlockRead> {
    /// The device that is read.
    pub dev: &'a R,
    /// The superblock of its image.
    pub sb: &'a Superblock,
    /// The cache that blocks are read through.
    pub cache: &'a mut MetaCache,
    /// Where the next block to pull starts.
    pub next_abs: u64,
    /// The bytes pulled so far, less what was dropped.
    pub buf: Window,
    /// How many of them were read.
    pub pos: usize,
}

impl<'a, R: BlockRead> MetaCursor<'a, R> {
    /// The image that is read.
    pub open spec fn image(&self) -> Seq<u8> {
        self.dev.image()
    }

    /// Whether its device is dependable.
    pub open spec fn dependable(&self) -> bool {
        self.dev.dependable()
    }

    /// The compressor of the image.
    pub open spec fn compression_id(&self) -> u16 {
        self.sb.compression_id
    }

    /// Where the cursor stands.
    pub open spec fn stream(&self) -> Stream {
        Stream { next_abs: self.next_abs as nat, rest: self.buf@.skip(self.pos as int) }
    }

    /// The cursor is in order.
    pub open spec fn wf(&self) -> bool {
        &&& self.pos <= self.buf@.len()
        &&& self.cache.fits(self.dev.image(), self.sb.compression_id)
    }

    /// `self` is `before` at another place.
    pub open spec fn follows(&self, before: &Self) -> bool {
        &&& self.wf()
        &&& self.image() == before.image()
        &&& self.dependable() == before.dependable()
        &&& self.compression_id() == before.compression_id()
        &&& self.cache@.capacity == before.cache@.capacity
    }

    /// Starts a cursor `in_block` bytes into the metadata block whose header
    /// is at `start_abs`.
    pub fn new(
        dev: &'a R,
        sb: &'a Superblock,
        start_abs: u64,
        in_block: u16,
        cache: &'a mut MetaCache,
    ) -> (r: Result<Self>)
        requires
            old(cache).fits(dev.image(), sb.compression_id),
        ensures
            old(cache)@.holds((start_abs, 0)) ==> !(r matches Err(Error::Block(_))),
            ({
                let want = stream_at(
                    dev.image(),
                    sb.compression_id,
                    start_abs as nat,
                    in_block as nat,
                );
                match r {
                    Ok(cur) => {
                        &&& want == Ok::<Stream, Error>(cur.stream())
                        &&& cur.wf()
                        &&& cur.image() == dev.image()
                        &&& cur.dependable() == dev.dependable()
                        &&& cur.compression_id() == sb.compression_id
                        &&& cur.cache@ == cache_after_block(
                            dev.image(),
                            sb.compression_id,
                            start_abs as nat,
                            old(cache)@,
                        )
                        &&& cur.cache@.capacity == old(cache)@.capacity
                        &&& *final(cur.cache) == *final(cache)
                    },
                    Err(e) => {
                        &&& want == Err::<Stream, Error>(e) || (!dev.dependable() && e is Block)
                        &&& final(cache).fits(dev.image(), sb.compression_id)
                        &&& final(cache)@.capacity == old(cache)@.capacity
                        &&& crate::error::settled(dev.dependable(), r) ==> final(cache)@
                            == cache_after_block(
                            dev.image(),
                            sb.compression_id,
                            start_abs as nat,
                            old(cache)@,
                        )
                    },
                }
            }),
    {
        let (block, next): (Arc<Vec<u8>>, u64) = read_block(dev, sb, start_abs, cache)?;
        if in_block as usize > block.len() {
            return Err(Error::BadMetadata("metadata reference offset past block end"));
        }
        Ok(
            MetaCursor {
                dev,
                sb,
                cache,
                next_abs: next,
                buf: Window::Whole(block),
                pos: in_block as usize,
            },
        )
    }

    /// Pulls one more metadata block onto the tail of the window.
    fn refill(&mut self) -> (r: Result<()>)
        requires
            old(self).wf(),
        ensures
            final(self).follows(&*old(self)),
            *final(final(self).cache) == *final(old(self).cache),
            old(self).cache@.holds((old(self).next_abs, 0)) ==> !(r matches Err(Error::Block(_))),
            crate::error::settled(old(self).dependable(), r) ==> final(self).cache@
                == cache_after_block(
                old(self).image(),
                old(self).compression_id(),
                old(self).stream().next_abs,
                old(self).cache@,
            ),
            ({
                let want = block_at(
                    old(self).image(),
                    old(self).compression_id(),
                    old(self).stream().next_abs,
                );
                match r {
                    Ok(_) => {
                        &&& want matches Ok((bytes, next))
                        &&& bytes.len() > 0
                        &&& final(self).stream() == (Stream {
                            next_abs: next,
                            rest: old(self).stream().rest + bytes,
                        })
                        &&& next > old(self).stream().next_abs
                        &&& next <= old(self).image().len()
                    },
                    Err(e) => {
                        ||| want == Err::<(Seq<u8>, nat), Error>(e)
                        ||| !old(self).dependable() && e is Block
                        ||| e == Error::BadMetadata("empty metadata block while reading record")
                            && want is Ok && (want->Ok_0).0.len() == 0
                    },
                }
            }),
    {
        proof {
            block_ends_behind_its_start(
                self.image(),
                self.compression_id(),
                self.next_abs as nat,
            );
        }
        let (block, next): (Arc<Vec<u8>>, u64) = read_block(
            self.dev,
            self.sb,
            self.next_abs,
            self.cache,
        )?;
        if block.len() == 0 {
            return Err(Error::BadMetadata("empty metadata block while reading record"));
        }
        let ghost rest = self.buf@.skip(self.pos as int);
        let mut held: Window = Window::Spliced(Vec::new());
        core::mem::swap(&mut self.buf, &mut held);
        let mut spliced: Vec<u8> = match held {
            Window::Whole(b) => {
                let mut own: Vec<u8> = Vec::new();
                own.extend_from_slice(&b.as_slice()[self.pos..b.len()]);
                own
            },
            Window::Spliced(mut b) => b.split_off(self.pos),
        };
        assert(spliced@ =~= rest);
        self.pos = 0;
        spliced.extend_from_slice(block.as_slice());
        assert(spliced@ =~= rest + block@);
        assert(spliced@.skip(0) =~= spliced@);
        self.buf = Window::Spliced(spliced);
        self.next_abs = next;
        Ok(())
    }

    /// Reads exactly `n` bytes and moves past them.
    #[verifier::rlimit(40)]
    pub fn read_exact(&mut self, n: usize) -> (r: Result<Vec<u8>>)
        requires
            old(self).wf(),
        ensures
            final(self).follows(&*old(self)),
            *final(final(self).cache) == *final(old(self).cache),
            crate::error::settled(old(self).dependable(), r) ==> final(self).cache@
                == stream_cache(
                old(self).image(),
                old(self).compression_id(),
                old(self).stream(),
                n as nat,
                old(self).cache@,
            ),
            ({
                let want = stream_read(
                    old(self).image(),
                    old(self).compression_id(),
                    old(self).stream(),
                    n as nat,
                );
                match r {
                    Ok(bytes) => {
                        &&& want == Ok::<(Seq<u8>, Stream), Error>((bytes@, final(self).stream()))
                        &&& bytes.len() == n
                    },
                    Err(e) => want == Err::<(Seq<u8>, Stream), Error>(e) || (!old(
                        self,
                    ).dependable() && e is Block),
                }
            }),
    {
        while self.buf.bytes().len() - self.pos < n
            invariant
                self.follows(&*old(self)),
                *final(self.cache) == *final(old(self).cache),
                stream_read(self.image(), self.compression_id(), self.stream(), n as nat)
                    == stream_read(
                    old(self).image(),
                    old(self).compression_id(),
                    old(self).stream(),
                    n as nat,
                ),
                stream_cache(
                    self.image(),
                    self.compression_id(),
                    self.stream(),
                    n as nat,
                    self.cache@,
                ) == stream_cache(
                    old(self).image(),
                    old(self).compression_id(),
                    old(self).stream(),
                    n as nat,
                    old(self).cache@,
                ),
                self.stream().next_abs <= old(self).image().len() || self.stream() == old(
                    self,
                ).stream(),
            decreases
                    (if self.stream().next_abs <= self.image().len() {
                        self.image().len() - self.stream().next_abs
                    } else {
                        0
                    }),
        {
            self.refill()?;
        }
        let end: usize = self.pos + n;
        let mut out: Vec<u8> = Vec::new();
        out.extend_from_slice(&self.buf.bytes()[self.pos..end]);
        assert(out@ =~= self.stream().rest.take(n as int));
        assert(self.buf@.skip(end as int) =~= self.stream().rest.skip(n as int));
        self.pos = end;
        Ok(out)
    }

    /// Reads a little-endian `u16`.
    pub fn read_u16(&mut self) -> (r: Result<u16>)
        requires
            old(self).wf(),
        ensures
            final(self).follows(&*old(self)),
            *final(final(self).cache) == *final(old(self).cache),
            crate::error::settled(old(self).dependable(), r) ==> final(self).cache@
                == stream_cache(
                old(self).image(),
                old(self).compression_id(),
                old(self).stream(),
                2,
                old(self).cache@,
            ),
            ({
                let want = stream_read(
                    old(self).image(),
                    old(self).compression_id(),
                    old(self).stream(),
                    2,
                );
                match r {
                    Ok(v) => {
                        &&& want is Ok
                        &&& v == crate::bytes::le16((want->Ok_0).0, 0)
                        &&& final(self).stream() == (want->Ok_0).1
                    },
                    Err(e) => want == Err::<(Seq<u8>, Stream), Error>(e) || (!old(
                        self,
                    ).dependable() && e is Block),
                }
            }),
    {
        let b: Vec<u8> = self.read_exact(2)?;
        Ok(get_le16(b.as_slice(), 0))
    }

    /// Reads a little-endian `i16`.
    pub fn read_i16(&mut self) -> (r: Result<i16>)
        requires
            old(self).wf(),
        ensures
            final(self).follows(&*old(self)),
            *final(final(self).cache) == *final(old(self).cache),
            crate::error::settled(old(self).dependable(), r) ==> final(self).cache@
                == stream_cache(
                old(self).image(),
                old(self).compression_id(),
                old(self).stream(),
                2,
                old(self).cache@,
            ),
            ({
                let want = stream_read(
                    old(self).image(),
                    old(self).compression_id(),
                    old(self).stream(),
                    2,
                );
                match r {
                    Ok(v) => {
                        &&& want is Ok
                        &&& v == crate::bytes::signed16(crate::bytes::le16((want->Ok_0).0, 0))
                        &&& final(self).stream() == (want->Ok_0).1
                    },
                    Err(e) => want == Err::<(Seq<u8>, Stream), Error>(e) || (!old(
                        self,
                    ).dependable() && e is Block),
                }
            }),
    {
        Ok(to_signed16(self.read_u16()?))
    }

    /// Reads a little-endian `u32`.
    pub fn read_u32(&mut self) -> (r: Result<u32>)
        requires
            old(self).wf(),
        ensures
            final(self).follows(&*old(self)),
            *final(final(self).cache) == *final(old(self).cache),
            crate::error::settled(old(self).dependable(), r) ==> final(self).cache@
                == stream_cache(
                old(self).image(),
                old(self).compression_id(),
                old(self).stream(),
                4,
                old(self).cache@,
            ),
            ({
                let want = stream_read(
                    old(self).image(),
                    old(self).compression_id(),
                    old(self).stream(),
                    4,
                );
                match r {
                    Ok(v) => {
                        &&& want is Ok
                        &&& v == crate::bytes::le32((want->Ok_0).0, 0)
                        &&& final(self).stream() == (want->Ok_0).1
                    },
                    Err(e) => want == Err::<(Seq<u8>, Stream), Error>(e) || (!old(
                        self,
                    ).dependable() && e is Block),
                }
            }),
    {
        let b: Vec<u8> = self.read_exact(4)?;
        Ok(get_le32(b.as_slice(), 0))
    }

    /// Reads a little-endian `u64`.
    pub fn read_u64(&mut self) -> (r: Result<u64>)
        requires
            old(self).wf(),
        ensures
            final(self).follows(&*old(self)),
            *final(final(self).cache) == *final(old(self).cache),
            crate::error::settled(old(self).dependable(), r) ==> final(self).cache@
                == stream_cache(
                old(self).image(),
                old(self).compression_id(),
                old(self).stream(),
                8,
                old(self).cache@,
            ),
            ({
                let want = stream_read(
                    old(self).image(),
                    old(self).compression_id(),
                    old(self).stream(),
                    8,
                );
                match r {
                    Ok(v) => {
                        &&& want is Ok
                        &&& v == crate::bytes::le64((want->Ok_0).0, 0)
                        &&& final(self).stream() == (want->Ok_0).1
                    },
                    Err(e) => want == Err::<(Seq<u8>, Stream), Error>(e) || (!old(
                        self,
                    ).dependable() && e is Block),
                }
            }),
    {
        let b: Vec<u8> = self.read_exact(8)?;
        Ok(get_le64(b.as_slice(), 0))
    }
}

} // verus!
