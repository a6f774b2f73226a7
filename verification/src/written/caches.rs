//! What is kept of what was read.

use vstd::prelude::*;

use crate::cache::CacheState;
use crate::data::Volume;
use crate::decompress::Compressor;
use crate::error::Error;
use crate::fs::Mount;
use crate::inode::InodeData;
use crate::metablock::Stream;
use crate::superblock::Superblock;

verus! {

broadcast use {
    super::numbers::lemma_len16,
    super::numbers::lemma_len32,
    super::numbers::lemma_len64,
};

/// Whether `after` is what `before` becomes when the block under `key` is read
/// through it: a hit where it is held, else a miss and, where the block could
/// be had, a new entry for it. Either way it is then the most recently used.
pub open spec fn is_read_through(
    before: CacheState,
    key: (u64, u64),
    found: Option<(Seq<u8>, u64)>,
    after: CacheState,
) -> bool {
    let known = exists|i: int| 0 <= i < before.entries.len() && #[trigger] before.entries[i].0 == key;
    &&& after.capacity == before.capacity
    &&& before.capacity == 0 ==> after == before
    &&& before.capacity > 0 && known ==> {
        &&& after.entries.len() == before.entries.len()
        &&& after.entries[0].0 == key
        &&& before.hits < u64::MAX ==> after.hits == before.hits + 1
        &&& after.misses == before.misses
    }
    &&& before.capacity > 0 && !known ==> {
        &&& after.hits == before.hits
        &&& before.misses < u64::MAX ==> after.misses == before.misses + 1
        &&& found is None ==> after.entries == before.entries
        &&& found matches Some((bytes, next)) ==> {
            &&& after.entries.len() > 0
            &&& after.entries[0] == (key, bytes, next)
        }
    }
}

proof fn lemma_read_through(
    before: CacheState,
    key: (u64, u64),
    found: Option<(Seq<u8>, u64)>,
    after: CacheState,
)
    requires
        after == (match found {
            Some((bytes, next)) => if before.holds(key) {
                before.after_lookup(key)
            } else {
                before.after_lookup(key).after_insert((key, bytes, next))
            },
            None => before.after_lookup(key),
        }),
    ensures
        is_read_through(before, key, found, after),
{
    crate::cache::lemma_place(before.entries, key);
    let i = crate::cache::place(before.entries, key);
    if i < before.entries.len() {
        assert(before.entries[i].0 == key);
    }
}

/// A metadata block that is read is kept, and looked for once.
pub proof fn metadata_blocks_are_kept(
    image: Seq<u8>,
    compression_id: u16,
    abs: nat,
    before: CacheState,
)
    requires
        abs <= u64::MAX,
        image.len() <= u64::MAX,
    ensures
        is_read_through(
            before,
            (abs as u64, 0),
            match crate::metablock::block_at(image, compression_id, abs) {
                Ok((bytes, next)) => Some((bytes, next as u64)),
                Err(_) => None,
            },
            crate::metablock::cache_after_block(image, compression_id, abs, before),
        ),
{
    lemma_read_through(
        before,
        (abs as u64, 0),
        match crate::metablock::block_at(image, compression_id, abs) {
            Ok((bytes, next)) => Some((bytes, next as u64)),
            Err(_) => None,
        },
        crate::metablock::cache_after_block(image, compression_id, abs, before),
    );
}

/// A data block that is read is kept, and looked for once; under another bound
/// it is another block.
pub proof fn data_blocks_are_kept(
    image: Seq<u8>,
    comp: Compressor,
    block_size: u32,
    abs: u64,
    size_word: u32,
    max_out: u32,
    before: CacheState,
)
    ensures
        is_read_through(
            before,
            (abs, (size_word + 0x1_0000_0000 * max_out) as u64),
            match crate::data::data_block_at(
                image,
                comp,
                block_size,
                abs,
                size_word,
                max_out as nat,
            ) {
                Ok(bytes) => Some((bytes, 0)),
                Err(_) => None,
            },
            crate::data::data_block_cache(
                image,
                comp,
                block_size,
                abs,
                size_word,
                max_out,
                before,
            ),
        ),
{
    lemma_read_through(
        before,
        (abs, (size_word + 0x1_0000_0000 * max_out) as u64),
        match crate::data::data_block_at(image, comp, block_size, abs, size_word, max_out as nat) {
            Ok(bytes) => Some((bytes, 0)),
            Err(_) => None,
        },
        crate::data::data_block_cache(image, comp, block_size, abs, size_word, max_out, before),
    );
}

/// A record takes one lookup for each block that it stands in: none more than
/// the first where it ends there, and the next one, and so on, where it does
/// not.
pub proof fn records_take_the_blocks_they_stand_in(
    image: Seq<u8>,
    compression_id: u16,
    abs: nat,
    in_block: nat,
    n: nat,
    bytes: Seq<u8>,
    next: nat,
    before: CacheState,
)
    requires
        crate::metablock::block_at(image, compression_id, abs) == Ok::<(Seq<u8>, nat), Error>(
            (bytes, next),
        ),
        in_block <= bytes.len(),
    ensures
        in_block + n <= bytes.len() ==> crate::metablock::record_cache(
            image,
            compression_id,
            abs,
            in_block,
            n,
            before,
        ) == crate::metablock::cache_after_block(image, compression_id, abs, before),
        in_block + n > bytes.len() && (crate::metablock::block_at(image, compression_id, next)
            matches Ok((more, _)) && more.len() > 0 && in_block + n <= bytes.len() + more.len())
            ==> crate::metablock::record_cache(image, compression_id, abs, in_block, n, before)
            == crate::metablock::cache_after_block(
            image,
            compression_id,
            next,
            crate::metablock::cache_after_block(image, compression_id, abs, before),
        ),
{
    reveal_with_fuel(crate::metablock::stream_cache, 2);
}

/// Listing a directory whose listing stands in one block takes that block, and
/// no other; an empty directory takes none.
pub proof fn listings_take_their_block(
    image: Seq<u8>,
    sb: Superblock,
    d: InodeData,
    bytes: Seq<u8>,
    next: nat,
    before: CacheState,
)
    requires
        d.inode_type == 1 || d.inode_type == 8,
        d.file_size <= u32::MAX,
        sb.directory_table_start + d.dir_start_block <= u64::MAX,
        crate::metablock::block_at(
            image,
            sb.compression_id,
            (sb.directory_table_start + d.dir_start_block) as nat,
        ) == Ok::<(Seq<u8>, nat), Error>((bytes, next)),
    ensures
        d.file_size > 3 && d.dir_block_offset + d.file_size - 3 <= bytes.len()
            ==> crate::fs::dir_cache(image, sb, d, before) == crate::metablock::cache_after_block(
            image,
            sb.compression_id,
            (sb.directory_table_start + d.dir_start_block) as nat,
            before,
        ),
        d.file_size <= 3 ==> crate::fs::dir_cache(image, sb, d, before) == before,
{
}

/// What is no directory takes no block to list, and an inode without
/// attributes none to list those.
pub proof fn nothing_is_read_for_nothing(
    image: Seq<u8>,
    m: Mount,
    d: InodeData,
    number: u32,
    before: CacheState,
)
    ensures
        d.inode_type != 1 && d.inode_type != 8 ==> crate::fs::dir_cache(image, m.sb, d, before)
            == before,
        m.xattrs is None || d.xattr_index == 0xFFFF_FFFF ==> crate::fs::attributes_cache(
            image,
            m,
            d,
            before,
        ) == before,
        m.exports is None ==> crate::fs::numbered_cache(image, m, number, before) == before,
        m.exports matches Some(t) && (number == 0 || number > t.inode_count)
            ==> crate::fs::numbered_cache(image, m, number, before) == before,
{
}

/// An inode takes the blocks that its bytes stand in, as a record of that
/// length does.
pub proof fn inodes_take_their_blocks(
    image: Seq<u8>,
    sb: Superblock,
    block: u64,
    in_block: u16,
    s: Stream,
    d: InodeData,
    u: super::inode::Unread,
    before: CacheState,
)
    requires
        block < 0x1_0000_0000_0000,
        sb.inode_table_start + block <= u64::MAX,
        sb.block_size > 0,
        super::inode::is_inode(d, sb.block_size as nat),
        crate::metablock::stream_at(
            image,
            sb.compression_id,
            (sb.inode_table_start + block) as nat,
            in_block as nat,
        ) == Ok::<Stream, Error>(s),
        super::metablock::comes_next(
            image,
            sb.compression_id,
            s,
            super::inode::inode_bytes(d, u),
        ),
    ensures
        crate::inode::inode_cache(image, sb, (block * 0x1_0000 + in_block) as u64, before)
            == crate::metablock::record_cache(
            image,
            sb.compression_id,
            (sb.inode_table_start + block) as nat,
            in_block as nat,
            super::inode::inode_bytes(d, u).len(),
            before,
        ),
{
    let id = sb.compression_id;
    let abs = (sb.inode_table_start + block) as nat;
    super::metablock::references_lead_to_their_place(sb.inode_table_start, block, in_block);
    let h = super::inode::header_bytes(d);
    let b = super::inode::body_bytes(d, u);
    let t = super::inode::tail_bytes(d);
    super::inode::lemma_fields(d, u, sb.block_size as nat);
    let c0 = crate::metablock::cache_after_block(image, id, abs, before);
    super::metablock::lemma_comes_apart(image, id, s, h, b + t);
    crate::metablock::stream_cache_in_pieces(image, id, s, 16, (b + t).len(), c0);
    let s1 = super::metablock::behind(image, id, s, 16);
    let c1 = crate::metablock::stream_cache(image, id, s, 16, c0);
    super::metablock::lemma_comes_apart(image, id, s1, b, t);
    crate::metablock::stream_cache_in_pieces(image, id, s1, b.len(), t.len(), c1);
    let s2 = super::metablock::behind(image, id, s1, b.len());
    let c2 = crate::metablock::stream_cache(image, id, s1, b.len(), c1);
    if d.inode_type == 2 || d.inode_type == 9 {
        super::numbers::lemma_all_bytes32_len(d.block_sizes);
    } else if d.inode_type == 10 {
        let x = super::numbers::bytes32(d.xattr_index);
        super::metablock::lemma_comes_apart(image, id, s2, d.symlink_target, x);
        crate::metablock::stream_cache_in_pieces(image, id, s2, d.symlink_target.len(), 4, c2);
    }
}

proof fn lemma_pair_takes(
    image: Seq<u8>,
    compression_id: u16,
    table_start: u64,
    s: Stream,
    p: super::xattr::Pair,
    c: CacheState,
)
    requires
        p.place is None,
        super::xattr::is_pair(image, compression_id, table_start, p),
        super::metablock::comes_next(image, compression_id, s, super::xattr::pair_bytes(p)),
    ensures
        crate::xattr::pair_cache(image, compression_id, table_start, s, c)
            == crate::metablock::stream_cache(
            image,
            compression_id,
            s,
            super::xattr::pair_bytes(p).len(),
            c,
        ),
{
    let id = compression_id;
    let n = p.suffix.len() as u16;
    let h = super::numbers::bytes16(p.prefix) + super::numbers::bytes16(n);
    let len = super::numbers::bytes32(p.value.len() as u32);
    let v = super::xattr::value_bytes(p.value);
    super::metablock::lemma_comes_apart(image, id, s, h, p.suffix + v);
    crate::metablock::stream_cache_in_pieces(image, id, s, 4, (p.suffix + v).len(), c);
    let s1 = super::metablock::behind(image, id, s, 4);
    let c1 = crate::metablock::stream_cache(image, id, s, 4, c);
    super::metablock::lemma_comes_apart(image, id, s1, p.suffix, v);
    crate::metablock::stream_cache_in_pieces(image, id, s1, p.suffix.len(), v.len(), c1);
    let s2 = super::metablock::behind(image, id, s1, p.suffix.len());
    let c2 = crate::metablock::stream_cache(image, id, s1, p.suffix.len(), c1);
    super::metablock::lemma_comes_apart(image, id, s2, len, p.value);
    crate::metablock::stream_cache_in_pieces(image, id, s2, 4, p.value.len(), c2);
    assert(h.subrange(0, 4) =~= h);
    assert(len.subrange(0, 4) =~= len);
    super::numbers::lemma_field16(h, 0, p.prefix, super::numbers::bytes16(n));
    super::numbers::lemma_last16(h, 2, n);
    super::numbers::lemma_last32(len, 0, p.value.len() as u32);
    super::xattr::pair_is_read_back(image, id, table_start, s, p);
}

proof fn lemma_pairs_take(
    image: Seq<u8>,
    compression_id: u16,
    table_start: u64,
    s: Stream,
    pairs: Seq<super::xattr::Pair>,
    total: nat,
    c: CacheState,
)
    requires
        forall|i: int|
            0 <= i < pairs.len() ==> super::xattr::is_pair(
                image,
                compression_id,
                table_start,
                #[trigger] pairs[i],
            ) && pairs[i].place is None,
        super::metablock::comes_next(image, compression_id, s, super::xattr::pairs_bytes(pairs)),
    ensures
        crate::xattr::pairs_cache(
            image,
            compression_id,
            table_start,
            s,
            pairs.len(),
            total,
            total + super::xattr::size_of(pairs),
            c,
        ) == crate::metablock::stream_cache(
            image,
            compression_id,
            s,
            super::xattr::pairs_bytes(pairs).len(),
            c,
        ),
    decreases pairs.len(),
{
    if pairs.len() > 0 {
        let id = compression_id;
        let p = pairs[0];
        let rest = pairs.drop_first();
        let one = super::xattr::pair_bytes(p);
        assert(super::xattr::is_pair(image, id, table_start, p));
        super::metablock::lemma_comes_apart(
            image,
            id,
            s,
            one,
            super::xattr::pairs_bytes(rest),
        );
        super::xattr::pair_is_read_back(image, id, table_start, s, p);
        lemma_pair_takes(image, id, table_start, s, p, c);
        crate::metablock::stream_cache_in_pieces(
            image,
            id,
            s,
            one.len(),
            super::xattr::pairs_bytes(rest).len(),
            c,
        );
        assert forall|i: int| 0 <= i < rest.len() implies super::xattr::is_pair(
            image,
            id,
            table_start,
            #[trigger] rest[i],
        ) && rest[i].place is None by {
            assert(rest[i] == pairs[i + 1]);
        }
        let share = crate::xattr::share(super::xattr::attribute_of(p));
        assert(share + super::xattr::size_of(rest) == super::xattr::size_of(pairs));
        lemma_pairs_take(
            image,
            id,
            table_start,
            super::metablock::behind(image, id, s, one.len()),
            rest,
            total + share,
            crate::metablock::stream_cache(image, id, s, one.len(), c),
        );
        assert(total + share + super::xattr::size_of(rest) == total + super::xattr::size_of(pairs));
    }
}

/// A set of attributes whose values all stand in it takes the blocks that its
/// bytes stand in, as a record of that length does.
pub proof fn sets_take_their_blocks(
    image: Seq<u8>,
    m: Mount,
    d: InodeData,
    s: Stream,
    pairs: Seq<super::xattr::Pair>,
    before: CacheState,
)
    requires
        m.xattrs is Some,
        d.xattr_index < m.xattrs->0.ids.len(),
        d.xattr_index != 0xFFFF_FFFF,
        pairs.len() <= 16384,
        ({
            let t = m.xattrs->0;
            let set = t.ids[d.xattr_index as int];
            &&& set.count == pairs.len()
            &&& set.size == super::xattr::size_of(pairs)
            &&& t.table_start + set.xattr_ref / 0x1_0000 <= u64::MAX
            &&& crate::metablock::stream_at(
                image,
                m.sb.compression_id,
                (t.table_start + set.xattr_ref / 0x1_0000) as nat,
                (set.xattr_ref % 0x1_0000) as nat,
            ) == Ok::<Stream, Error>(s)
            &&& forall|i: int|
                0 <= i < pairs.len() ==> super::xattr::is_pair(
                    image,
                    m.sb.compression_id,
                    t.table_start,
                    #[trigger] pairs[i],
                ) && pairs[i].place is None
        }),
        super::metablock::comes_next(
            image,
            m.sb.compression_id,
            s,
            super::xattr::pairs_bytes(pairs),
        ),
    ensures
        ({
            let t = m.xattrs->0;
            let set = t.ids[d.xattr_index as int];
            crate::fs::attributes_cache(image, m, d, before) == crate::metablock::record_cache(
                image,
                m.sb.compression_id,
                (t.table_start + set.xattr_ref / 0x1_0000) as nat,
                (set.xattr_ref % 0x1_0000) as nat,
                super::xattr::pairs_bytes(pairs).len(),
                before,
            )
        }),
{
    let t = m.xattrs->0;
    let set = t.ids[d.xattr_index as int];
    let abs = (t.table_start + set.xattr_ref / 0x1_0000) as nat;
    lemma_pairs_take(
        image,
        m.sb.compression_id,
        t.table_start,
        s,
        pairs,
        0,
        crate::metablock::cache_after_block(image, m.sb.compression_id, abs, before),
    );
}

/// A path takes what the root inode takes and then what walking takes; listing
/// what stands there, or its attributes, comes behind that.
pub proof fn paths_take_the_root_first(
    image: Seq<u8>,
    m: Mount,
    path: Seq<u8>,
    root: InodeData,
    d: InodeData,
    before: CacheState,
)
    requires
        crate::inode::inode_at(image, m.sb, m.sb.root_inode_ref) == Ok::<InodeData, Error>(root),
        crate::fs::resolved(image, m.sb, path) == Ok::<InodeData, Error>(d),
    ensures
        ({
            let first = crate::inode::inode_cache(image, m.sb, m.sb.root_inode_ref, before);
            let walked = crate::fs::walk_cache(
                image,
                m.sb,
                root,
                crate::path::components(path),
                first,
            );
            &&& crate::fs::resolved_cache(image, m.sb, path, before) == walked
            &&& crate::capi::opened_dir_cache(image, m, path, before) == crate::fs::dir_cache(
                image,
                m.sb,
                d,
                walked,
            )
            &&& crate::capi::listed_cache(image, m, path, before) == crate::fs::attributes_cache(
                image,
                m,
                d,
                walked,
            )
        }),
{
}

/// An inode number takes the one block that its reference stands in.
pub proof fn numbers_take_their_block(image: Seq<u8>, m: Mount, number: u32, before: CacheState)
    requires
        m.exports matches Some(t) && 1 <= number <= t.inode_count && (number - 1) / 1024
            < t.block_starts.len(),
    ensures
        crate::fs::numbered_cache(image, m, number, before) == crate::metablock::cache_after_block(
            image,
            m.sb.compression_id,
            m.exports->0.block_starts[(number - 1) / 1024] as nat,
            before,
        ),
{
}

/// A block of a file takes the data block it stands in, its tail the fragment
/// block; a block of zeros that was left out takes none.
pub proof fn file_blocks_take_their_data_block(
    image: Seq<u8>,
    vol: Volume,
    d: InodeData,
    i: nat,
    before: CacheState,
)
    requires
        vol.block_size > 0,
        d.inode_type == 2 || d.inode_type == 9,
        i * vol.block_size < d.file_size,
        super::data::laid_at(d, d.block_sizes.len()) <= u64::MAX,
    ensures
        ({
            let after = crate::data::logical_block_cache(image, vol, d, i, before);
            let left = d.file_size - i * vol.block_size;
            &&& i < d.block_sizes.len() && d.block_sizes[i as int] % 0x100_0000 == 0 ==> after
                == before
            &&& i < d.block_sizes.len() && d.block_sizes[i as int] % 0x100_0000 != 0 ==> after
                == crate::data::data_block_cache(
                image,
                vol.comp,
                vol.block_size,
                super::data::laid_at(d, i) as u64,
                d.block_sizes[i as int],
                if left < vol.block_size {
                    left as u32
                } else {
                    vol.block_size
                },
                before,
            )
            &&& i >= d.block_sizes.len() && d.fragment_index < vol.fragments.len()
                && d.fragment_index != 0xFFFF_FFFF ==> after == crate::data::data_block_cache(
                image,
                vol.comp,
                vol.block_size,
                vol.fragments[d.fragment_index as int].start,
                vol.fragments[d.fragment_index as int].size,
                vol.block_size,
                before,
            )
            &&& i >= d.block_sizes.len() && (d.fragment_index >= vol.fragments.len()
                || d.fragment_index == 0xFFFF_FFFF) ==> after == before
        }),
{
    if i < d.block_sizes.len() {
        super::data::lemma_laid_at(d, i, d.block_sizes.len());
    }
}

/// A read within one block of a file takes that block, and one behind the end
/// takes none.
pub proof fn reads_take_their_blocks(
    image: Seq<u8>,
    vol: Volume,
    d: InodeData,
    offset: nat,
    wanted: nat,
    before: CacheState,
)
    requires
        vol.block_size > 0,
        d.inode_type == 2 || d.inode_type == 9,
    ensures
        offset >= d.file_size || wanted == 0 ==> crate::data::file_cache(
            image,
            vol,
            d,
            offset,
            wanted,
            before,
        ) == before,
        offset < d.file_size && wanted > 0 && offset % vol.block_size as nat + wanted
            <= vol.block_size ==> crate::data::file_cache(image, vol, d, offset, wanted, before)
            == crate::data::logical_block_cache(
            image,
            vol,
            d,
            offset / vol.block_size as nat,
            before,
        ),
{
    let bs = vol.block_size as nat;
    if offset < d.file_size && wanted > 0 && offset % bs + wanted <= bs {
        let i = offset / bs;
        vstd::arithmetic::div_mod::lemma_fundamental_div_mod(offset as int, bs as int);
        assert(i * bs == bs * i) by (nonlinear_arith);
        crate::data::logical_block_has_its_length(image, vol, d, i);
        reveal_with_fuel(crate::data::span_cache, 2);
    }
}

/// Walking on by a name takes what listing the directory and reading the inode
/// behind the name take, in that order.
pub proof fn walking_takes_listings_and_inodes(
    image: Seq<u8>,
    sb: Superblock,
    d: InodeData,
    entries: Seq<crate::dir::EntryData>,
    i: int,
    next: InodeData,
    more: Seq<Seq<u8>>,
    before: CacheState,
)
    requires
        d.inode_type == 1 || d.inode_type == 8,
        crate::fs::dir_entries(image, sb, d) == Ok::<Seq<crate::dir::EntryData>, Error>(entries),
        0 <= i < entries.len(),
        forall|k: int| 0 <= k < i ==> (#[trigger] entries[k]).name != entries[i].name,
        crate::inode::inode_at(image, sb, entries[i].inode_ref) == Ok::<InodeData, Error>(next),
    ensures
        crate::fs::walk_cache(image, sb, d, seq![entries[i].name] + more, before)
            == crate::fs::walk_cache(
            image,
            sb,
            next,
            more,
            crate::inode::inode_cache(
                image,
                sb,
                entries[i].inode_ref,
                crate::fs::dir_cache(image, sb, d, before),
            ),
        ),
        crate::fs::walk_cache(image, sb, d, Seq::empty(), before) == before,
{
    let names = seq![entries[i].name] + more;
    assert(names[0] == entries[i].name);
    assert(names.drop_first() =~= more);
    super::dir::names_lead_to_their_inodes(image, sb, d, entries, entries[i].name);
    lemma_entry_place(entries, i);
    reveal(crate::fs::child_cache);
}

proof fn lemma_entry_place(entries: Seq<crate::dir::EntryData>, i: int)
    requires
        0 <= i < entries.len(),
        forall|k: int| 0 <= k < i ==> (#[trigger] entries[k]).name != entries[i].name,
    ensures
        crate::fs::entry_place(entries, entries[i].name) == i,
    decreases i,
{
    if i > 0 {
        let rest = entries.drop_first();
        assert(rest[i - 1] == entries[i]);
        assert forall|k: int| 0 <= k < i - 1 implies (#[trigger] rest[k]).name != rest[i - 1].name by {
            assert(rest[k] == entries[k + 1]);
        }
        assert(entries[0].name != entries[i].name);
        lemma_entry_place(rest, i - 1);
    }
}

} // verus!
