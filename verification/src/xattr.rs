//! Extended attributes.
//!
//! An inode holds an index into a table of attribute sets, so that inodes
//! with the same attributes share one set. At `xattr_id_table_start` stands
//! a header of 16 bytes: `u64` where the name/value pairs begin, `u32` number
//! of sets, four bytes unused. The array of block pointers follows it, as in
//! [`crate::table`]. A set is described by 16 bytes: `u64` reference to its
//! pairs, `u32` number of pairs, `u32` size.
//!
//! The size is not that of anything on disk. It is what the names and values
//! add up to, with one byte for the end of each name, so it can be computed
//! from the pairs and checks that no length was misread.
//!
//! A pair is: `u16` type, `u16` length of the name behind its prefix, that
//! part of the name, `u32` length of the value, the value. The low byte of
//! the type selects the prefix. With `0x100` set in it the value is a
//! reference to a `u32` length and the value proper.

use vstd::prelude::*;

use crate::bytes::{get_le16, get_le32, get_le64};
use crate::cache::CacheState;
use crate::device::BlockRead;
use crate::error::{Error, Result};
use crate::metablock::{MetaCache, MetaCursor, MetadataRef, Stream};
use crate::superblock::Superblock;
use crate::table::{read_indirect_table, NO_TABLE};

verus! {

/// The xattr index of an inode without extended attributes.
pub const SQUASHFS_INVALID_XATTR: u32 = 0xFFFF_FFFF;

/// Set in a pair's type where its value is a reference to the value.
pub const XATTR_VALUE_OOL: u16 = 0x0100;

/// The size of a set's entry in the table of sets.
pub const ID_ENTRY_SIZE: usize = 16;

/// The size of the header of the table of sets.
pub const ID_TABLE_HEADER_SIZE: usize = 16;

/// The longest name, prefix included: `XATTR_NAME_MAX` on Linux.
pub const MAX_NAME_LEN: usize = 255;

/// The longest value: `XATTR_SIZE_MAX` on Linux.
pub const MAX_VALUE_LEN: usize = 65536;

/// The most attributes that one set may declare.
pub const MAX_XATTRS_PER_INODE: u32 = 16384;

/// One extended attribute.
#[derive(Debug, Clone, PartialEq, Eq)]
pub struct XattrEntry {
    /// The name, prefix included.
    pub name: Vec<u8>,
    /// The value. An empty one is not the same as no attribute.
    pub value: Vec<u8>,
}

/// What an [`XattrEntry`] holds.
#[verifier::ext_equal]
pub struct XattrData {
    pub name: Seq<u8>,
    pub value: Seq<u8>,
}

impl View for XattrEntry {
    type V = XattrData;

    open spec fn view(&self) -> XattrData {
        XattrData { name: self.name@, value: self.value@ }
    }
}

/// What a list of attributes holds.
pub open spec fn xattr_data(v: Seq<XattrEntry>) -> Seq<XattrData> {
    Seq::new(v.len(), |i: int| v[i]@)
}

/// Where a set of pairs is, how many they are, and what they add up to.
#[derive(Debug, Clone, Copy)]
pub struct XattrId {
    pub xattr_ref: u64,
    pub count: u32,
    pub size: u32,
}

/// The table of attribute sets: one entry for each distinct set.
#[derive(Debug, Clone)]
pub struct XattrIdTable {
    table_start: u64,
    ids: Vec<XattrId>,
}

/// What an [`XattrIdTable`] holds.
#[verifier::ext_equal]
pub struct XattrIds {
    /// What the references to pairs are relative to.
    pub table_start: u64,
    /// The sets.
    pub ids: Seq<XattrId>,
}

impl View for XattrIdTable {
    type V = XattrIds;

    closed spec fn view(&self) -> XattrIds {
        XattrIds { table_start: self.table_start, ids: self.ids@ }
    }
}

impl XattrIdTable {
    /// How many distinct sets the image holds.
    pub fn len(&self) -> (r: usize)
        ensures
            r == self@.ids.len(),
    {
        self.ids.len()
    }

    /// Whether the image holds no set at all.
    pub fn is_empty(&self) -> (r: bool)
        ensures
            r == (self@.ids.len() == 0),
    {
        self.ids.len() == 0
    }
}

// ---- the table of sets ----

/// The set at index `i` in the entries of the table.
pub open spec fn id_in(bytes: Seq<u8>, i: int) -> XattrId {
    XattrId {
        xattr_ref: crate::bytes::le64(bytes, ID_ENTRY_SIZE * i),
        count: crate::bytes::le32(bytes, ID_ENTRY_SIZE * i + 8),
        size: crate::bytes::le32(bytes, ID_ENTRY_SIZE * i + 12),
    }
}

/// The table of attribute sets of an image, if it has one.
pub open spec fn xattr_table(image: Seq<u8>, sb: Superblock) -> Result<Option<XattrIds>> {
    let at = sb.xattr_id_table_start;
    if at == NO_TABLE {
        Ok(None)
    } else {
        match crate::device::served(image, at as nat, ID_TABLE_HEADER_SIZE as nat) {
            Err(e) => Err(Error::Block(e)),
            Ok(header) => {
                let table_start = crate::bytes::le64(header, 0);
                let n = crate::bytes::le32(header, 8) as nat;
                if n == 0 {
                    Ok(Some(XattrIds { table_start, ids: Seq::empty() }))
                } else if table_start >= at {
                    Err(Error::BadMetadata("xattr pair table starts at or after its own index"))
                } else {
                    match crate::table::entries_at(
                        image,
                        sb,
                        (at + ID_TABLE_HEADER_SIZE) as nat,
                        (ID_ENTRY_SIZE * n) as nat,
                    ) {
                        Err(e) => Err(e),
                        Ok(bytes) => Ok(
                            Some(
                                XattrIds {
                                    table_start,
                                    ids: Seq::new(n, |i: int| id_in(bytes, i)),
                                },
                            ),
                        ),
                    }
                }
            },
        }
    }
}

/// Reads the table of attribute sets; `None` where the image was built
/// without one, which is no error.
pub fn read_id_table<R: BlockRead>(dev: &R, sb: &Superblock) -> (r: Result<Option<XattrIdTable>>)
    ensures
        ({
            let want = xattr_table(dev.image(), *sb);
            match r {
                Ok(Some(t)) => want == Ok::<Option<XattrIds>, Error>(Some(t@)),
                Ok(None) => want == Ok::<Option<XattrIds>, Error>(None),
                Err(e) => want == Err::<Option<XattrIds>, Error>(e) || (!dev.dependable()
                    && e is Block && sb.xattr_id_table_start != NO_TABLE),
            }
        }),
{
    let at: u64 = sb.xattr_id_table_start;
    if at == NO_TABLE {
        return Ok(None);
    }
    let size: u64 = dev.size_bytes();
    let header: Vec<u8> = match dev.read_at(at, ID_TABLE_HEADER_SIZE) {
        Ok(b) => b,
        Err(e) => return Err(Error::Block(e)),
    };
    assert(at + ID_TABLE_HEADER_SIZE <= size);
    let table_start: u64 = get_le64(header.as_slice(), 0);
    let n: u32 = get_le32(header.as_slice(), 8);
    let mut ids: Vec<XattrId> = Vec::new();
    if n == 0 {
        assert(ids@ =~= Seq::empty());
        return Ok(Some(XattrIdTable { table_start, ids }));
    }
    // The pairs come before their index on disk.
    if table_start >= at {
        return Err(Error::BadMetadata("xattr pair table starts at or after its own index"));
    }
    let bytes: Vec<u8> = read_indirect_table(
        dev,
        sb,
        at + ID_TABLE_HEADER_SIZE as u64,
        ID_ENTRY_SIZE as u64 * n as u64,
    )?;
    let mut i: u32 = 0;
    while i < n
        invariant
            i <= n,
            bytes.len() >= ID_ENTRY_SIZE * n,
            ids@ == Seq::new(i as nat, |k: int| id_in(bytes@, k)),
        decreases n - i,
    {
        let o: usize = ID_ENTRY_SIZE * i as usize;
        let xattr_ref: u64 = get_le64(bytes.as_slice(), o);
        let count: u32 = get_le32(bytes.as_slice(), o + 8);
        let size: u32 = get_le32(bytes.as_slice(), o + 12);
        ids.push(XattrId { xattr_ref, count, size });
        assert(ids@ =~= Seq::new((i + 1) as nat, |k: int| id_in(bytes@, k)));
        i = i + 1;
    }
    Ok(Some(XattrIdTable { table_start, ids }))
}

// ---- the pairs ----

/// The prefixes, in the format's own order: `user.`, `trusted.` and
/// `security.`. Nothing stands for any other index.
pub open spec fn prefix_of(index: u16) -> Option<Seq<u8>> {
    if index == 0 {
        Some(seq![0x75u8, 0x73, 0x65, 0x72, 0x2E])
    } else if index == 1 {
        Some(seq![0x74u8, 0x72, 0x75, 0x73, 0x74, 0x65, 0x64, 0x2E])
    } else if index == 2 {
        Some(seq![0x73u8, 0x65, 0x63, 0x75, 0x72, 0x69, 0x74, 0x79, 0x2E])
    } else {
        None
    }
}

/// The prefix with the given index: `user.`, `trusted.` or `security.`.
pub fn prefix(index: u16) -> (r: Option<Vec<u8>>)
    ensures
        match r {
            Some(p) => prefix_of(index) == Some(p@),
            None => prefix_of(index) is None,
        },
{
    if index == 0 {
        let p: Vec<u8> = vec![0x75, 0x73, 0x65, 0x72, 0x2E];
        assert(p@ =~= prefix_of(0)->0);
        Some(p)
    } else if index == 1 {
        let p: Vec<u8> = vec![0x74, 0x72, 0x75, 0x73, 0x74, 0x65, 0x64, 0x2E];
        assert(p@ =~= prefix_of(1)->0);
        Some(p)
    } else if index == 2 {
        let p: Vec<u8> = vec![0x73, 0x65, 0x63, 0x75, 0x72, 0x69, 0x74, 0x79, 0x2E];
        assert(p@ =~= prefix_of(2)->0);
        Some(p)
    } else {
        None
    }
}

/// A length and that many bytes, which must not be more than
/// [`MAX_VALUE_LEN`]; and the stream behind them.
pub open spec fn value_in(
    image: Seq<u8>,
    compression_id: u16,
    s: Stream,
    too_long: &'static str,
) -> Result<(Seq<u8>, Stream)> {
    match crate::metablock::stream_read(image, compression_id, s, 4) {
        Err(e) => Err(e),
        Ok((len, s1)) => {
            let n = crate::bytes::le32(len, 0);
            if n > MAX_VALUE_LEN {
                Err(Error::BadMetadata(too_long))
            } else {
                crate::metablock::stream_read(image, compression_id, s1, n as nat)
            }
        },
    }
}

/// The value that an out-of-line reference names. It stands there without a
/// type, so it cannot be a reference in turn.
pub open spec fn value_at(
    image: Seq<u8>,
    compression_id: u16,
    table_start: u64,
    packed: u64,
) -> Result<Seq<u8>> {
    let r = MetadataRef::unpacked(packed);
    match crate::metablock::stream_at(
        image,
        compression_id,
        r.absolute(table_start) as nat,
        r.in_block as nat,
    ) {
        Err(e) => Err(e),
        Ok(s) => match value_in(
            image,
            compression_id,
            s,
            "out-of-line xattr value longer than the format allows",
        ) {
            Err(e) => Err(e),
            Ok((value, _)) => Ok(value),
        },
    }
}

/// The name of a pair, given its type and the part behind the prefix.
pub open spec fn name_of(raw_type: u16, suffix: Seq<u8>) -> Result<Seq<u8>> {
    match prefix_of(raw_type % 0x100) {
        None => Err(Error::BadMetadata("xattr names an undefined namespace")),
        Some(p) => if p.len() + suffix.len() > MAX_NAME_LEN {
            Err(Error::BadMetadata("xattr name longer than the format allows"))
        } else {
            Ok(p + suffix)
        },
    }
}

/// The value of a pair, in line or behind a reference; and the stream behind
/// the pair.
pub open spec fn pair_value(
    image: Seq<u8>,
    compression_id: u16,
    table_start: u64,
    raw_type: u16,
    s: Stream,
) -> Result<(Seq<u8>, Stream)> {
    if (raw_type / XATTR_VALUE_OOL) % 2 == 0 {
        value_in(image, compression_id, s, "xattr value longer than the format allows")
    } else {
        match crate::metablock::stream_read(image, compression_id, s, 4) {
            Err(e) => Err(e),
            Ok((len, s1)) => if crate::bytes::le32(len, 0) != 8 {
                Err(Error::BadMetadata("out-of-line xattr value is not an 8-byte reference"))
            } else {
                match crate::metablock::stream_read(image, compression_id, s1, 8) {
                    Err(e) => Err(e),
                    Ok((target, s2)) => match value_at(
                        image,
                        compression_id,
                        table_start,
                        crate::bytes::le64(target, 0),
                    ) {
                        Err(e) => Err(e),
                        Ok(value) => Ok((value, s2)),
                    },
                }
            },
        }
    }
}

/// The pair at the start of the stream `s`, and the stream behind it.
pub open spec fn pair_in(
    image: Seq<u8>,
    compression_id: u16,
    table_start: u64,
    s: Stream,
) -> Result<(XattrData, Stream)> {
    match crate::metablock::stream_read(image, compression_id, s, 4) {
        Err(e) => Err(e),
        Ok((h, s1)) => {
            let raw_type = crate::bytes::le16(h, 0);
            let name_size = crate::bytes::le16(h, 2);
            if name_size > MAX_NAME_LEN {
                Err(Error::BadMetadata("xattr name longer than the format allows"))
            } else {
                match crate::metablock::stream_read(
                    image,
                    compression_id,
                    s1,
                    name_size as nat,
                ) {
                    Err(e) => Err(e),
                    Ok((suffix, s2)) => match name_of(raw_type, suffix) {
                        Err(e) => Err(e),
                        Ok(name) => match pair_value(
                            image,
                            compression_id,
                            table_start,
                            raw_type,
                            s2,
                        ) {
                            Err(e) => Err(e),
                            Ok((value, s3)) => Ok((XattrData { name, value }, s3)),
                        },
                    },
                }
            }
        },
    }
}

/// What an attribute adds to the size of its set.
pub open spec fn share(x: XattrData) -> nat {
    x.name.len() + 1 + x.value.len()
}

/// What a set of attributes adds up to.
pub open spec fn total_share(set: Seq<XattrData>) -> nat
    decreases set.len(),
{
    if set.len() == 0 {
        0
    } else {
        share(set[0]) + total_share(set.drop_first())
    }
}

/// The `n` pairs from the stream `s` on, which with the `total` so far have
/// to add up to `size`.
pub open spec fn pairs_in(
    image: Seq<u8>,
    compression_id: u16,
    table_start: u64,
    s: Stream,
    n: nat,
    total: nat,
    size: nat,
) -> Result<Seq<XattrData>>
    decreases n,
{
    if n == 0 {
        if total != size {
            Err(Error::BadMetadata("xattr set does not add up to the size it declared"))
        } else {
            Ok(Seq::empty())
        }
    } else {
        match pair_in(image, compression_id, table_start, s) {
            Err(e) => Err(e),
            Ok((x, s1)) => if total + share(x) > size {
                Err(Error::BadMetadata("xattr set is longer than the size it declared"))
            } else {
                match pairs_in(
                    image,
                    compression_id,
                    table_start,
                    s1,
                    (n - 1) as nat,
                    total + share(x),
                    size,
                ) {
                    Err(e) => Err(e),
                    Ok(rest) => Ok(seq![x] + rest),
                }
            },
        }
    }
}

/// The set of attributes at `index`.
pub open spec fn set_at(
    image: Seq<u8>,
    compression_id: u16,
    table: XattrIds,
    index: u32,
) -> Result<Seq<XattrData>> {
    if index >= table.ids.len() {
        Err(Error::BadMetadata("xattr index past the end of the table"))
    } else {
        let id = table.ids[index as int];
        let r = MetadataRef::unpacked(id.xattr_ref);
        if id.count > MAX_XATTRS_PER_INODE {
            Err(Error::BadMetadata("xattr set declares an absurd count"))
        } else {
            match crate::metablock::stream_at(
                image,
                compression_id,
                r.absolute(table.table_start) as nat,
                r.in_block as nat,
            ) {
                Err(e) => Err(e),
                Ok(s) => pairs_in(
                    image,
                    compression_id,
                    table.table_start,
                    s,
                    id.count as nat,
                    0,
                    id.size as nat,
                ),
            }
        }
    }
}

/// Whether the device is read for the set of attributes at `index`.
pub open spec fn set_is_read(table: XattrIds, index: u32) -> bool {
    index < table.ids.len() && table.ids[index as int].count <= MAX_XATTRS_PER_INODE
}

// ---- what reading does to a cache ----

/// The cache after a length and that many bytes were read through it.
pub open spec fn value_cache(
    image: Seq<u8>,
    compression_id: u16,
    s: Stream,
    cache: CacheState,
) -> CacheState {
    let c1 = crate::metablock::stream_cache(image, compression_id, s, 4, cache);
    match crate::metablock::stream_read(image, compression_id, s, 4) {
        Err(_) => c1,
        Ok((len, s1)) => {
            let n = crate::bytes::le32(len, 0);
            if n > MAX_VALUE_LEN {
                c1
            } else {
                crate::metablock::stream_cache(image, compression_id, s1, n as nat, c1)
            }
        },
    }
}

/// The cache after the value that an out-of-line reference names was read
/// through it.
pub open spec fn value_at_cache(
    image: Seq<u8>,
    compression_id: u16,
    table_start: u64,
    packed: u64,
    cache: CacheState,
) -> CacheState {
    let r = MetadataRef::unpacked(packed);
    let abs = r.absolute(table_start) as nat;
    let first = crate::metablock::cache_after_block(image, compression_id, abs, cache);
    match crate::metablock::stream_at(image, compression_id, abs, r.in_block as nat) {
        Err(_) => first,
        Ok(s) => value_cache(image, compression_id, s, first),
    }
}

/// The cache after the value of a pair was read through it.
pub open spec fn pair_value_cache(
    image: Seq<u8>,
    compression_id: u16,
    table_start: u64,
    raw_type: u16,
    s: Stream,
    cache: CacheState,
) -> CacheState {
    if (raw_type / XATTR_VALUE_OOL) % 2 == 0 {
        value_cache(image, compression_id, s, cache)
    } else {
        let c1 = crate::metablock::stream_cache(image, compression_id, s, 4, cache);
        match crate::metablock::stream_read(image, compression_id, s, 4) {
            Err(_) => c1,
            Ok((len, s1)) => if crate::bytes::le32(len, 0) != 8 {
                c1
            } else {
                let c2 = crate::metablock::stream_cache(image, compression_id, s1, 8, c1);
                match crate::metablock::stream_read(image, compression_id, s1, 8) {
                    Err(_) => c2,
                    Ok((target, _)) => value_at_cache(
                        image,
                        compression_id,
                        table_start,
                        crate::bytes::le64(target, 0),
                        c2,
                    ),
                }
            },
        }
    }
}

/// The cache after the pair at the start of the stream `s` was read through
/// it.
pub open spec fn pair_cache(
    image: Seq<u8>,
    compression_id: u16,
    table_start: u64,
    s: Stream,
    cache: CacheState,
) -> CacheState {
    let c1 = crate::metablock::stream_cache(image, compression_id, s, 4, cache);
    match crate::metablock::stream_read(image, compression_id, s, 4) {
        Err(_) => c1,
        Ok((h, s1)) => {
            let raw_type = crate::bytes::le16(h, 0);
            let n = crate::bytes::le16(h, 2);
            if n > MAX_NAME_LEN {
                c1
            } else {
                let c2 = crate::metablock::stream_cache(image, compression_id, s1, n as nat, c1);
                match crate::metablock::stream_read(image, compression_id, s1, n as nat) {
                    Err(_) => c2,
                    Ok((suffix, s2)) => match name_of(raw_type, suffix) {
                        Err(_) => c2,
                        Ok(_) => pair_value_cache(
                            image,
                            compression_id,
                            table_start,
                            raw_type,
                            s2,
                            c2,
                        ),
                    },
                }
            }
        },
    }
}

/// The cache after the `n` pairs from the stream `s` on were read through it.
pub open spec fn pairs_cache(
    image: Seq<u8>,
    compression_id: u16,
    table_start: u64,
    s: Stream,
    n: nat,
    total: nat,
    size: nat,
    cache: CacheState,
) -> CacheState
    decreases n,
{
    if n == 0 {
        cache
    } else {
        let c1 = pair_cache(image, compression_id, table_start, s, cache);
        match pair_in(image, compression_id, table_start, s) {
            Err(_) => c1,
            Ok((x, s1)) => if total + share(x) > size {
                c1
            } else {
                pairs_cache(
                    image,
                    compression_id,
                    table_start,
                    s1,
                    (n - 1) as nat,
                    total + share(x),
                    size,
                    c1,
                )
            },
        }
    }
}

/// The cache after the set of attributes at `index` was read through it.
pub open spec fn set_cache(
    image: Seq<u8>,
    compression_id: u16,
    table: XattrIds,
    index: u32,
    cache: CacheState,
) -> CacheState {
    if !set_is_read(table, index) {
        cache
    } else {
        let id = table.ids[index as int];
        let r = MetadataRef::unpacked(id.xattr_ref);
        let abs = r.absolute(table.table_start) as nat;
        let first = crate::metablock::cache_after_block(image, compression_id, abs, cache);
        match crate::metablock::stream_at(image, compression_id, abs, r.in_block as nat) {
            Err(_) => first,
            Ok(s) => pairs_cache(
                image,
                compression_id,
                table.table_start,
                s,
                id.count as nat,
                0,
                id.size as nat,
                first,
            ),
        }
    }
}

/// What reading a part of a stream returned, against what the image calls
/// for.
pub open spec fn part_outcome<T>(
    dependable: bool,
    got: Result<T>,
    after: Stream,
    want: Result<(T, Stream)>,
) -> bool {
    match got {
        Ok(v) => want == Ok::<(T, Stream), Error>((v, after)),
        Err(e) => want == Err::<(T, Stream), Error>(e) || (!dependable && e is Block),
    }
}

fn read_value<R: BlockRead>(cur: &mut MetaCursor<R>, too_long: &'static str) -> (r: Result<
    Vec<u8>,
>)
    requires
        old(cur).wf(),
    ensures
        final(cur).follows(&*old(cur)),
        *final(final(cur).cache) == *final(old(cur).cache),
        part_outcome(
            old(cur).dependable(),
            crate::error::bytes_of(r),
            final(cur).stream(),
            value_in(old(cur).image(), old(cur).compression_id(), old(cur).stream(), too_long),
        ),
        crate::error::settled(old(cur).dependable(), r) ==> final(cur).cache@ == value_cache(
            old(cur).image(),
            old(cur).compression_id(),
            old(cur).stream(),
            old(cur).cache@,
        ),
        r matches Ok(v) ==> v.len() <= MAX_VALUE_LEN,
{
    let n: u32 = cur.read_u32()?;
    if n as usize > MAX_VALUE_LEN {
        return Err(Error::BadMetadata(too_long));
    }
    cur.read_exact(n as usize)
}

/// Follows an out-of-line reference to the value it names.
fn read_ool_value<R: BlockRead>(
    dev: &R,
    sb: &Superblock,
    table_start: u64,
    packed: u64,
    cache: &mut MetaCache,
) -> (r: Result<Vec<u8>>)
    requires
        old(cache).fits(dev.image(), sb.compression_id),
    ensures
        crate::error::outcome(
            dev.dependable(),
            crate::error::bytes_of(r),
            value_at(dev.image(), sb.compression_id, table_start, packed),
        ),
        crate::error::settled(dev.dependable(), r) ==> final(cache)@ == value_at_cache(
            dev.image(),
            sb.compression_id,
            table_start,
            packed,
            old(cache)@,
        ),
        r matches Ok(v) ==> v.len() <= MAX_VALUE_LEN,
        final(cache).fits(dev.image(), sb.compression_id),
        final(cache)@.capacity == old(cache)@.capacity,
{
    let at: MetadataRef = MetadataRef::from_packed(packed);
    let mut cur = MetaCursor::new(dev, sb, at.start_abs(table_start), at.in_block, cache)?;
    read_value(&mut cur, "out-of-line xattr value longer than the format allows")
}

#[verifier::rlimit(40)]
fn read_pair<R: BlockRead>(cur: &mut MetaCursor<R>, table_start: u64) -> (r: Result<XattrEntry>)
    requires
        old(cur).wf(),
    ensures
        final(cur).follows(&*old(cur)),
        *final(final(cur).cache) == *final(old(cur).cache),
        part_outcome(
            old(cur).dependable(),
            match r {
                Ok(x) => Ok(x@),
                Err(e) => Err(e),
            },
            final(cur).stream(),
            pair_in(
                old(cur).image(),
                old(cur).compression_id(),
                table_start,
                old(cur).stream(),
            ),
        ),
        crate::error::settled(old(cur).dependable(), r) ==> final(cur).cache@ == pair_cache(
            old(cur).image(),
            old(cur).compression_id(),
            table_start,
            old(cur).stream(),
            old(cur).cache@,
        ),
        r matches Ok(x) ==> x.name.len() <= MAX_NAME_LEN && x.value.len() <= MAX_VALUE_LEN,
{
    let header: Vec<u8> = cur.read_exact(4)?;
    let raw_type: u16 = get_le16(header.as_slice(), 0);
    let name_size: u16 = get_le16(header.as_slice(), 2);
    if name_size as usize > MAX_NAME_LEN {
        return Err(Error::BadMetadata("xattr name longer than the format allows"));
    }
    let suffix: Vec<u8> = cur.read_exact(name_size as usize)?;
    let mut name: Vec<u8> = match prefix(raw_type % 0x100) {
        Some(p) => p,
        None => return Err(Error::BadMetadata("xattr names an undefined namespace")),
    };
    let ghost start = name@;
    name.extend_from_slice(suffix.as_slice());
    assert(name@ =~= start + suffix@);
    if name.len() > MAX_NAME_LEN {
        return Err(Error::BadMetadata("xattr name longer than the format allows"));
    }
    let value: Vec<u8> = if (raw_type / XATTR_VALUE_OOL) % 2 == 0 {
        read_value(cur, "xattr value longer than the format allows")?
    } else {
        let vsize: u32 = cur.read_u32()?;
        if vsize != 8 {
            return Err(Error::BadMetadata("out-of-line xattr value is not an 8-byte reference"));
        }
        let target: u64 = cur.read_u64()?;
        read_ool_value(cur.dev, cur.sb, table_start, target, cur.cache)?
    };
    Ok(XattrEntry { name, value })
}

/// `r` with `out` in front.
spec fn behind(out: Seq<XattrData>, r: Result<Seq<XattrData>>) -> Result<Seq<XattrData>> {
    match r {
        Ok(rest) => Ok(out + rest),
        Err(e) => Err(e),
    }
}

/// What reading a set returned, against what the image calls for.
pub open spec fn set_outcome(
    dependable: bool,
    got: Result<Vec<XattrEntry>>,
    want: Result<Seq<XattrData>>,
) -> bool {
    match got {
        Ok(v) => want == Ok::<Seq<XattrData>, Error>(xattr_data(v@)),
        Err(e) => want == Err::<Seq<XattrData>, Error>(e) || (!dependable && e is Block),
    }
}

#[verifier::rlimit(40)]
fn read_pairs<R: BlockRead>(
    cur: &mut MetaCursor<R>,
    table_start: u64,
    count: u32,
    size: u32,
) -> (r: Result<Vec<XattrEntry>>)
    requires
        old(cur).wf(),
        count <= MAX_XATTRS_PER_INODE,
    ensures
        final(cur).follows(&*old(cur)),
        *final(final(cur).cache) == *final(old(cur).cache),
        set_outcome(
            old(cur).dependable(),
            r,
            pairs_in(
                old(cur).image(),
                old(cur).compression_id(),
                table_start,
                old(cur).stream(),
                count as nat,
                0,
                size as nat,
            ),
        ),
        crate::error::settled(old(cur).dependable(), r) ==> final(cur).cache@ == pairs_cache(
            old(cur).image(),
            old(cur).compression_id(),
            table_start,
            old(cur).stream(),
            count as nat,
            0,
            size as nat,
            old(cur).cache@,
        ),
{
    let ghost after = pairs_cache(
        cur.image(),
        cur.compression_id(),
        table_start,
        cur.stream(),
        count as nat,
        0,
        size as nat,
        cur.cache@,
    );
    let ghost want = pairs_in(
        cur.image(),
        cur.compression_id(),
        table_start,
        cur.stream(),
        count as nat,
        0,
        size as nat,
    );
    let mut out: Vec<XattrEntry> = Vec::new();
    let mut total: u64 = 0;
    let mut left: u32 = count;
    proof {
        assert(xattr_data(out@) =~= Seq::empty());
        if want is Ok {
            assert(Seq::<XattrData>::empty() + want->Ok_0 =~= want->Ok_0);
        }
    }
    while left > 0
        invariant
            cur.follows(&*old(cur)),
            *final(cur.cache) == *final(old(cur).cache),
            total <= size,
            want == pairs_in(
                old(cur).image(),
                old(cur).compression_id(),
                table_start,
                old(cur).stream(),
                count as nat,
                0,
                size as nat,
            ),
            after == pairs_cache(
                old(cur).image(),
                old(cur).compression_id(),
                table_start,
                old(cur).stream(),
                count as nat,
                0,
                size as nat,
                old(cur).cache@,
            ),
            after == pairs_cache(
                cur.image(),
                cur.compression_id(),
                table_start,
                cur.stream(),
                left as nat,
                total as nat,
                size as nat,
                cur.cache@,
            ),
            want == behind(
                xattr_data(out@),
                pairs_in(
                    cur.image(),
                    cur.compression_id(),
                    table_start,
                    cur.stream(),
                    left as nat,
                    total as nat,
                    size as nat,
                ),
            ),
        decreases left,
    {
        let ghost s = cur.stream();
        let ghost before = xattr_data(out@);
        let entry: XattrEntry = read_pair(cur, table_start)?;
        let grown: u64 = total + entry.name.len() as u64 + 1 + entry.value.len() as u64;
        if grown > size as u64 {
            return Err(Error::BadMetadata("xattr set is longer than the size it declared"));
        }
        let ghost x = entry@;
        proof {
            let rest = pairs_in(
                cur.image(),
                cur.compression_id(),
                table_start,
                cur.stream(),
                (left - 1) as nat,
                grown as nat,
                size as nat,
            );
            if rest is Ok {
                assert(before + (seq![x] + rest->Ok_0) =~= before.push(x) + rest->Ok_0);
            }
        }
        total = grown;
        out.push(entry);
        assert(xattr_data(out@) =~= before.push(x));
        left = left - 1;
    }
    if total != size as u64 {
        return Err(Error::BadMetadata("xattr set does not add up to the size it declared"));
    }
    assert(xattr_data(out@) + Seq::<XattrData>::empty() =~= xattr_data(out@));
    Ok(out)
}

/// Reads the set of attributes at `index`.
///
/// The set is refused where the index is past the table, a name or a value
/// is longer than the format allows, a namespace is undefined, or the pairs
/// do not add up to the declared size.
pub fn read_set<R: BlockRead>(
    dev: &R,
    sb: &Superblock,
    table: &XattrIdTable,
    index: u32,
    cache: &mut MetaCache,
) -> (r: Result<Vec<XattrEntry>>)
    requires
        old(cache).fits(dev.image(), sb.compression_id),
    ensures
        set_outcome(
            dev.dependable() || !set_is_read(table@, index),
            r,
            set_at(dev.image(), sb.compression_id, table@, index),
        ),
        crate::error::settled(dev.dependable(), r) ==> final(cache)@ == set_cache(
            dev.image(),
            sb.compression_id,
            table@,
            index,
            old(cache)@,
        ),
        final(cache).fits(dev.image(), sb.compression_id),
        final(cache)@.capacity == old(cache)@.capacity,
{
    if index as usize >= table.ids.len() {
        return Err(Error::BadMetadata("xattr index past the end of the table"));
    }
    let id: XattrId = table.ids[index as usize];
    if id.count > MAX_XATTRS_PER_INODE {
        return Err(Error::BadMetadata("xattr set declares an absurd count"));
    }
    let at: MetadataRef = MetadataRef::from_packed(id.xattr_ref);
    let mut cur = MetaCursor::new(dev, sb, at.start_abs(table.table_start), at.in_block, cache)?;
    read_pairs(&mut cur, table.table_start, id.count, id.size)
}

// ---- laws ----

/// A set that is read holds as many attributes as its entry declares, and
/// their names and values add up to the size that it declares.
pub proof fn set_adds_up(image: Seq<u8>, compression_id: u16, table: XattrIds, index: u32)
    requires
        set_at(image, compression_id, table, index) is Ok,
    ensures
        set_at(image, compression_id, table, index) matches Ok(set) && set.len()
            == table.ids[index as int].count && total_share(set) == table.ids[index as int].size,
{
    let id = table.ids[index as int];
    let r = MetadataRef::unpacked(id.xattr_ref);
    match crate::metablock::stream_at(
        image,
        compression_id,
        r.absolute(table.table_start) as nat,
        r.in_block as nat,
    ) {
        Err(_) => {},
        Ok(s) => lemma_pairs_add_up(
            image,
            compression_id,
            table.table_start,
            s,
            id.count as nat,
            0,
            id.size as nat,
        ),
    }
}

proof fn lemma_pairs_add_up(
    image: Seq<u8>,
    compression_id: u16,
    table_start: u64,
    s: Stream,
    n: nat,
    total: nat,
    size: nat,
)
    ensures
        pairs_in(image, compression_id, table_start, s, n, total, size) matches Ok(set)
            ==> set.len() == n && total + total_share(set) == size,
    decreases n,
{
    if n > 0 {
        match pair_in(image, compression_id, table_start, s) {
            Err(_) => {},
            Ok((x, s1)) => {
                let rest = pairs_in(
                    image,
                    compression_id,
                    table_start,
                    s1,
                    (n - 1) as nat,
                    total + share(x),
                    size,
                );
                lemma_pairs_add_up(
                    image,
                    compression_id,
                    table_start,
                    s1,
                    (n - 1) as nat,
                    total + share(x),
                    size,
                );
                if rest is Ok {
                    assert((seq![x] + rest->Ok_0).drop_first() =~= rest->Ok_0);
                }
            },
        }
    }
}

/// Whether a name starts with one of the three prefixes.
pub open spec fn has_prefix(name: Seq<u8>) -> bool {
    exists|k: u16|
        k < 3 && (#[trigger] prefix_of(k))->0.len() <= name.len() && name.take(
            (prefix_of(k)->0).len() as int,
        ) == prefix_of(k)->0
}

/// Every attribute that is read has a name in one of the three namespaces,
/// of at most 255 bytes, and a value of at most 65536.
pub proof fn set_is_bounded(
    image: Seq<u8>,
    compression_id: u16,
    table: XattrIds,
    index: u32,
    i: int,
)
    requires
        set_at(image, compression_id, table, index) matches Ok(set) && 0 <= i < set.len(),
    ensures
        set_at(image, compression_id, table, index) matches Ok(set) && has_prefix(set[i].name)
            && set[i].name.len() <= MAX_NAME_LEN && set[i].value.len() <= MAX_VALUE_LEN,
{
    let id = table.ids[index as int];
    let r = MetadataRef::unpacked(id.xattr_ref);
    match crate::metablock::stream_at(
        image,
        compression_id,
        r.absolute(table.table_start) as nat,
        r.in_block as nat,
    ) {
        Err(_) => {},
        Ok(s) => lemma_pairs_bounded(
            image,
            compression_id,
            table.table_start,
            s,
            id.count as nat,
            0,
            id.size as nat,
        ),
    }
}

spec fn is_bounded(x: XattrData) -> bool {
    has_prefix(x.name) && x.name.len() <= MAX_NAME_LEN && x.value.len() <= MAX_VALUE_LEN
}

proof fn lemma_value_bounded(
    image: Seq<u8>,
    compression_id: u16,
    s: Stream,
    too_long: &'static str,
)
    ensures
        value_in(image, compression_id, s, too_long) matches Ok((v, _)) ==> v.len()
            <= MAX_VALUE_LEN,
{
    match crate::metablock::stream_read(image, compression_id, s, 4) {
        Err(_) => {},
        Ok((len, s1)) => {
            crate::metablock::stream_read_gives_all(
                image,
                compression_id,
                s1,
                crate::bytes::le32(len, 0) as nat,
            );
        },
    }
}

proof fn lemma_pair_bounded(image: Seq<u8>, compression_id: u16, table_start: u64, s: Stream)
    ensures
        pair_in(image, compression_id, table_start, s) matches Ok((x, _)) ==> is_bounded(x),
{
    if let Ok((x, _)) = pair_in(image, compression_id, table_start, s) {
        let (h, s1) = crate::metablock::stream_read(image, compression_id, s, 4)->Ok_0;
        let raw_type = crate::bytes::le16(h, 0);
        let name_size = crate::bytes::le16(h, 2);
        let (suffix, s2) = crate::metablock::stream_read(
            image,
            compression_id,
            s1,
            name_size as nat,
        )->Ok_0;
        let k = (raw_type % 0x100) as u16;
        let p = prefix_of(k)->0;
        assert(x.name == p + suffix);
        assert(x.name.take(p.len() as int) =~= p);
        assert(has_prefix(x.name));
        lemma_value_bounded(
            image,
            compression_id,
            s2,
            "xattr value longer than the format allows",
        );
        if (raw_type / XATTR_VALUE_OOL) % 2 != 0 {
            let (_, s3) = crate::metablock::stream_read(image, compression_id, s2, 4)->Ok_0;
            let (target, _) = crate::metablock::stream_read(image, compression_id, s3, 8)->Ok_0;
            let r = MetadataRef::unpacked(crate::bytes::le64(target, 0));
            let s4 = crate::metablock::stream_at(
                image,
                compression_id,
                r.absolute(table_start) as nat,
                r.in_block as nat,
            )->Ok_0;
            lemma_value_bounded(
                image,
                compression_id,
                s4,
                "out-of-line xattr value longer than the format allows",
            );
        }
    }
}

proof fn lemma_pairs_bounded(
    image: Seq<u8>,
    compression_id: u16,
    table_start: u64,
    s: Stream,
    n: nat,
    total: nat,
    size: nat,
)
    ensures
        pairs_in(image, compression_id, table_start, s, n, total, size) matches Ok(set)
            ==> forall|i: int| 0 <= i < set.len() ==> is_bounded(#[trigger] set[i]),
    decreases n,
{
    if n > 0 {
        lemma_pair_bounded(image, compression_id, table_start, s);
        match pair_in(image, compression_id, table_start, s) {
            Err(_) => {},
            Ok((x, s1)) => lemma_pairs_bounded(
                image,
                compression_id,
                table_start,
                s1,
                (n - 1) as nat,
                total + share(x),
                size,
            ),
        }
    }
}

} // verus!
