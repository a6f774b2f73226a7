//! The filesystem handle: from paths to inodes, listings, file data and
//! extended attributes.

use vstd::prelude::*;
use vstd::string::*;

use crate::cache::{BlockCache, CacheState};
use crate::data::{read_file_data, Volume};
use crate::decompress::Compressor;
use crate::device::BlockRead;
use crate::dir::{parse_listing, DirEntry, EntryData};
use crate::error::{Error, Result};
use crate::inode::{FileType, Inode, InodeData};
use crate::metablock::{MetaCache, MetaCursor, MetadataRef};
use crate::path::{name_len_at, same_bytes, SEPARATOR};
use crate::superblock::{self, Superblock};
use crate::table::{self, ExportTable, Exports, FragmentEntry};
use crate::xattr::{self, XattrData, XattrEntry, XattrIdTable, XattrIds, SQUASHFS_INVALID_XATTR};

verus! {

/// How many blocks of an image, as they stand on disk, a mount caches unless
/// told otherwise. They are of the image's block size: 4 MiB at the usual
/// 128 KiB.
pub const DEFAULT_CACHE_BLOCKS: usize = 32;

/// How many decompressed metadata blocks a mount holds: 2 MiB at most.
pub const DEFAULT_META_CACHE_BLOCKS: usize = 256;

/// How many decompressed data and fragment blocks a mount holds: 1 MiB at the
/// usual 128 KiB.
pub const DEFAULT_DATA_CACHE_BLOCKS: usize = 8;

/// What a mount knows of its image from the start.
#[verifier::ext_equal]
pub struct Mount {
    pub sb: Superblock,
    pub comp: Compressor,
    /// The uid/gid table.
    pub ids: Seq<u32>,
    /// The fragment table.
    pub fragments: Seq<FragmentEntry>,
    /// The table of attribute sets, if the image has one.
    pub xattrs: Option<XattrIds>,
    /// The export table, if the image has one.
    pub exports: Option<Exports>,
}

impl Mount {
    /// What the data of files is read by.
    pub open spec fn volume(self) -> Volume {
        Volume { comp: self.comp, block_size: self.sb.block_size, fragments: self.fragments }
    }
}

/// What mounting `image` gives.
pub open spec fn mounted(image: Seq<u8>) -> Result<Mount> {
    match superblock::superblock_of(image) {
        Err(e) => Err(e),
        Ok(sb) => match sb.placed(image.len() as u64) {
            Err(e) => Err(e),
            Ok(_) => match crate::decompress::compressor_of(sb.compression_id) {
                Err(e) => Err(e),
                Ok(comp) => match table::id_table(image, sb) {
                    Err(e) => Err(e),
                    Ok(ids) => match table::fragment_table(image, sb) {
                        Err(e) => Err(e),
                        Ok(fragments) => match xattr::xattr_table(image, sb) {
                            Err(e) => Err(e),
                            Ok(xattrs) => match table::export_table(image, sb) {
                                Err(e) => Err(e),
                                Ok(exports) => Ok(
                                    Mount { sb, comp, ids, fragments, xattrs, exports },
                                ),
                            },
                        },
                    },
                },
            },
        },
    }
}

// ---- directories and paths ----

/// The entries of a directory.
pub open spec fn dir_entries(image: Seq<u8>, sb: Superblock, d: InodeData) -> Result<
    Seq<EntryData>,
> {
    let at = MetadataRef { block_offset: d.dir_start_block as u64, in_block: d.dir_block_offset };
    if d.kind() != FileType::Dir {
        Err(Error::NotADirectory)
    } else if d.listing_len() == 0 {
        Ok(Seq::empty())
    } else {
        match crate::metablock::stream_at(
            image,
            sb.compression_id,
            at.absolute(sb.directory_table_start) as nat,
            at.in_block as nat,
        ) {
            Err(e) => Err(e),
            Ok(s) => match crate::metablock::stream_read(
                image,
                sb.compression_id,
                s,
                d.listing_len(),
            ) {
                Err(e) => Err(e),
                Ok((buf, _)) => crate::dir::listing(buf),
            },
        }
    }
}

/// Where the first entry with the given name stands, the number of entries
/// where there is none.
pub open spec fn entry_place(entries: Seq<EntryData>, name: Seq<u8>) -> nat
    decreases entries.len(),
{
    if entries.len() == 0 || entries[0].name == name {
        0
    } else {
        1 + entry_place(entries.drop_first(), name)
    }
}

/// Whether the device is asked for the entries of `d`.
pub open spec fn dir_is_read(d: InodeData) -> bool {
    d.kind() == FileType::Dir && d.listing_len() > 0
}

/// The inode of the first entry with the given name.
#[verifier::opaque]
pub open spec fn child(image: Seq<u8>, sb: Superblock, d: InodeData, name: Seq<u8>) -> Result<
    InodeData,
> {
    match dir_entries(image, sb, d) {
        Err(e) => Err(e),
        Ok(entries) => {
            let i = entry_place(entries, name);
            if i < entries.len() {
                crate::inode::inode_at(image, sb, entries[i as int].inode_ref)
            } else {
                Err(Error::NotFound)
            }
        },
    }
}

/// The inode reached from `d` by the given names, one after the other.
pub open spec fn walked(image: Seq<u8>, sb: Superblock, d: InodeData, names: Seq<Seq<u8>>) -> Result<
    InodeData,
>
    decreases names.len(),
{
    if names.len() == 0 {
        Ok(d)
    } else if d.kind() != FileType::Dir {
        Err(Error::NotADirectory)
    } else {
        match child(image, sb, d, names[0]) {
            Err(e) => Err(e),
            Ok(next) => walked(image, sb, next, names.drop_first()),
        }
    }
}

/// The inode at a path from the root. Symlinks are not followed.
pub open spec fn resolved(image: Seq<u8>, sb: Superblock, path: Seq<u8>) -> Result<InodeData> {
    match crate::inode::inode_at(image, sb, sb.root_inode_ref) {
        Err(e) => Err(e),
        Ok(root) => walked(image, sb, root, crate::path::components(path)),
    }
}

// ---- extended attributes ----

/// The extended attributes of an inode.
pub open spec fn attributes(image: Seq<u8>, m: Mount, d: InodeData) -> Result<Seq<XattrData>> {
    match m.xattrs {
        None => Ok(Seq::empty()),
        Some(t) => if d.xattr_index == SQUASHFS_INVALID_XATTR {
            Ok(Seq::empty())
        } else {
            xattr::set_at(image, m.sb.compression_id, t, d.xattr_index)
        },
    }
}

/// Where the first attribute with the given name stands, the number of
/// attributes where there is none.
pub open spec fn attribute_place(set: Seq<XattrData>, name: Seq<u8>) -> nat
    decreases set.len(),
{
    if set.len() == 0 || set[0].name == name {
        0
    } else {
        1 + attribute_place(set.drop_first(), name)
    }
}

/// The value of the attribute with the given name, if there is one.
pub open spec fn attribute(set: Seq<XattrData>, name: Seq<u8>) -> Option<Seq<u8>> {
    let i = attribute_place(set, name);
    if i < set.len() {
        Some(set[i as int].value)
    } else {
        None
    }
}

/// Whether the device is asked for the attributes of `d`.
pub open spec fn attributes_are_read(m: Mount, d: InodeData) -> bool {
    m.xattrs matches Some(t) && d.xattr_index != SQUASHFS_INVALID_XATTR && xattr::set_is_read(
        t,
        d.xattr_index,
    )
}

// ---- inode numbers ----

/// The reference of the inode with the given number.
pub open spec fn numbered(image: Seq<u8>, m: Mount, inode_number: u32) -> Result<u64> {
    match m.exports {
        None => Err(Error::NotExportable),
        Some(t) => table::exported(image, m.sb.compression_id, t, inode_number),
    }
}

/// Whether the device is asked for the reference of an inode number.
pub open spec fn number_is_read(m: Mount, inode_number: u32) -> bool {
    m.exports matches Some(t) && table::exported_is_read(t, inode_number)
}

// ---- what reading does to the cache of metadata blocks ----

/// The cache after a directory was listed through it.
pub open spec fn dir_cache(
    image: Seq<u8>,
    sb: Superblock,
    d: InodeData,
    cache: CacheState,
) -> CacheState {
    let at = MetadataRef { block_offset: d.dir_start_block as u64, in_block: d.dir_block_offset };
    if dir_is_read(d) {
        crate::metablock::record_cache(
            image,
            sb.compression_id,
            at.absolute(sb.directory_table_start) as nat,
            at.in_block as nat,
            d.listing_len(),
            cache,
        )
    } else {
        cache
    }
}

/// The cache after a name was looked up in a directory through it.
#[verifier::opaque]
pub open spec fn child_cache(
    image: Seq<u8>,
    sb: Superblock,
    d: InodeData,
    name: Seq<u8>,
    cache: CacheState,
) -> CacheState {
    let listed = dir_cache(image, sb, d, cache);
    match dir_entries(image, sb, d) {
        Err(_) => listed,
        Ok(entries) => {
            let i = entry_place(entries, name);
            if i < entries.len() {
                crate::inode::inode_cache(image, sb, entries[i as int].inode_ref, listed)
            } else {
                listed
            }
        },
    }
}

/// The cache after names were walked through it from `d` on.
pub open spec fn walk_cache(
    image: Seq<u8>,
    sb: Superblock,
    d: InodeData,
    names: Seq<Seq<u8>>,
    cache: CacheState,
) -> CacheState
    decreases names.len(),
{
    if names.len() == 0 || d.kind() != FileType::Dir {
        cache
    } else {
        let after = child_cache(image, sb, d, names[0], cache);
        match child(image, sb, d, names[0]) {
            Err(_) => after,
            Ok(next) => walk_cache(image, sb, next, names.drop_first(), after),
        }
    }
}

/// The cache after a path was resolved through it.
pub open spec fn resolved_cache(
    image: Seq<u8>,
    sb: Superblock,
    path: Seq<u8>,
    cache: CacheState,
) -> CacheState {
    let after = crate::inode::inode_cache(image, sb, sb.root_inode_ref, cache);
    match crate::inode::inode_at(image, sb, sb.root_inode_ref) {
        Err(_) => after,
        Ok(root) => walk_cache(image, sb, root, crate::path::components(path), after),
    }
}

/// The cache after the attributes of an inode were read through it.
pub open spec fn attributes_cache(
    image: Seq<u8>,
    m: Mount,
    d: InodeData,
    cache: CacheState,
) -> CacheState {
    match m.xattrs {
        None => cache,
        Some(t) => if d.xattr_index == SQUASHFS_INVALID_XATTR {
            cache
        } else {
            xattr::set_cache(image, m.sb.compression_id, t, d.xattr_index, cache)
        },
    }
}

/// The cache after an inode number was resolved to a reference through it.
pub open spec fn numbered_cache(
    image: Seq<u8>,
    m: Mount,
    inode_number: u32,
    cache: CacheState,
) -> CacheState {
    match m.exports {
        None => cache,
        Some(t) => table::exported_cache(image, m.sb.compression_id, t, inode_number, cache),
    }
}

/// The cache after the inode of a number was read through it.
pub open spec fn numbered_inode_cache(
    image: Seq<u8>,
    m: Mount,
    inode_number: u32,
    cache: CacheState,
) -> CacheState {
    let after = numbered_cache(image, m, inode_number, cache);
    match numbered(image, m, inode_number) {
        Err(_) => after,
        Ok(inode_ref) => crate::inode::inode_cache(image, m.sb, inode_ref, after),
    }
}

/// A mounted image.
pub struct Filesystem<D: BlockRead> {
    dev: D,
    pub sb: Superblock,
    comp: Compressor,
    id_table: Vec<u32>,
    fragments: Vec<FragmentEntry>,
    xattr_ids: Option<XattrIdTable>,
    exports: Option<ExportTable>,
    meta_cache: MetaCache,
    data_cache: BlockCache,
}

impl<D: BlockRead> View for Filesystem<D> {
    type V = Mount;

    closed spec fn view(&self) -> Mount {
        Mount {
            sb: self.sb,
            comp: self.comp,
            ids: self.id_table@,
            fragments: self.fragments@,
            xattrs: match self.xattr_ids {
                Some(t) => Some(t@),
                None => None,
            },
            exports: match self.exports {
                Some(t) => Some(t@),
                None => None,
            },
        }
    }
}

impl<D: BlockRead> Filesystem<D> {
    /// The image that is mounted.
    pub closed spec fn image(&self) -> Seq<u8> {
        self.dev.image()
    }

    /// Whether its device is dependable.
    pub closed spec fn dependable(&self) -> bool {
        self.dev.dependable()
    }

    /// The cache of decompressed metadata blocks.
    pub closed spec fn meta_cache_state(&self) -> CacheState {
        self.meta_cache@
    }

    /// The cache of decompressed data blocks.
    pub closed spec fn data_cache_state(&self) -> CacheState {
        self.data_cache@
    }

    /// The mount is in order: its superblock is valid, its compressor is the
    /// one that the superblock names, and all that its caches hold is what
    /// the image has.
    pub closed spec fn wf(&self) -> bool {
        &&& self.sb.wf()
        &&& crate::decompress::compressor_of(self.sb.compression_id) == Ok::<Compressor, Error>(
            self.comp,
        )
        &&& self.meta_cache.fits(self.dev.image(), self.sb.compression_id)
        &&& crate::data::data_cache_fits(
            self.data_cache,
            self.dev.image(),
            self.comp,
            self.sb.block_size,
        )
    }

    /// `self` is `before`, but for what its caches hold and have counted.
    pub open spec fn same_mount(&self, before: &Self) -> bool {
        &&& self.wf()
        &&& self@ == before@
        &&& self.image() == before.image()
        &&& self.dependable() == before.dependable()
        &&& self.meta_cache_state().capacity == before.meta_cache_state().capacity
        &&& self.data_cache_state().capacity == before.data_cache_state().capacity
    }

    /// `self` is `before`, but for what its cache of metadata blocks holds and
    /// has counted.
    pub open spec fn same_but_metadata(&self, before: &Self) -> bool {
        self.same_mount(before) && self.data_cache_state() == before.data_cache_state()
    }

    /// `self` is `before`, but for what its cache of data blocks holds and has
    /// counted.
    pub open spec fn same_but_data(&self, before: &Self) -> bool {
        self.same_mount(before) && self.meta_cache_state() == before.meta_cache_state()
    }

    /// A mount over tables that were read already.
    pub fn from_parts(
        dev: D,
        sb: Superblock,
        comp: Compressor,
        id_table: Vec<u32>,
        fragments: Vec<FragmentEntry>,
        xattr_ids: Option<XattrIdTable>,
        exports: Option<ExportTable>,
    ) -> (r: Self)
        requires
            sb.wf(),
            crate::decompress::compressor_of(sb.compression_id) == Ok::<Compressor, Error>(comp),
        ensures
            r.wf(),
            r.image() == dev.image(),
            r.dependable() == dev.dependable(),
            r@ == (Mount {
                sb,
                comp,
                ids: id_table@,
                fragments: fragments@,
                xattrs: match xattr_ids {
                    Some(t) => Some(t@),
                    None => None,
                },
                exports: match exports {
                    Some(t) => Some(t@),
                    None => None,
                },
            }),
            r.meta_cache_state() == CacheState::empty(DEFAULT_META_CACHE_BLOCKS as nat),
            r.data_cache_state() == CacheState::empty(DEFAULT_DATA_CACHE_BLOCKS as nat),
            r.meta_cache_state().capacity == 256,
            r.data_cache_state().capacity == 8,
    {
        let meta_cache = MetaCache::new(DEFAULT_META_CACHE_BLOCKS);
        let data_cache = BlockCache::new(DEFAULT_DATA_CACHE_BLOCKS);
        assert(meta_cache.fits(dev.image(), sb.compression_id));
        Filesystem {
            dev,
            sb,
            comp,
            id_table,
            fragments,
            xattr_ids,
            exports,
            meta_cache,
            data_cache,
        }
    }

    /// Mounts the image on a device: reads the superblock, checks it against
    /// the size of the device, and reads the tables.
    pub fn open(dev: D) -> (r: Result<Self>)
        ensures
            match r {
                Ok(fs) => {
                    &&& mounted(dev.image()) == Ok::<Mount, Error>(fs@)
                    &&& fs.wf()
                    &&& fs.image() == dev.image()
                    &&& fs.dependable() == dev.dependable()
                    &&& fs.meta_cache_state() == CacheState::empty(
                        DEFAULT_META_CACHE_BLOCKS as nat,
                    )
                    &&& fs.data_cache_state() == CacheState::empty(
                        DEFAULT_DATA_CACHE_BLOCKS as nat,
                    )
                },
                Err(e) => mounted(dev.image()) == Err::<Mount, Error>(e) || (!dev.dependable()
                    && e is Block),
            },
    {
        let sb: Superblock = superblock::read(&dev)?;
        sb.validate_against_device(dev.size_bytes())?;
        let comp: Compressor = sb.compressor()?;
        if !comp.is_supported() {
            return Err(Error::UnsupportedCompression(sb.compression_id));
        }
        let id_table: Vec<u32> = table::read_id_table(&dev, &sb)?;
        let fragments: Vec<FragmentEntry> = table::read_fragment_table(&dev, &sb)?;
        let xattr_ids: Option<XattrIdTable> = xattr::read_id_table(&dev, &sb)?;
        let exports: Option<ExportTable> = table::read_export_table(&dev, &sb)?;
        Ok(Filesystem::from_parts(dev, sb, comp, id_table, fragments, xattr_ids, exports))
    }

    /// Resizes the cache of decompressed metadata blocks, as a builder. Zero
    /// switches it off.
    pub fn with_meta_cache_capacity(self, blocks: usize) -> (r: Self)
        requires
            self.wf(),
            blocks <= isize::MAX / 64,
        ensures
            r.wf(),
            r@ == self@,
            r.image() == self.image(),
            r.dependable() == self.dependable(),
            r.meta_cache_state() == CacheState::empty(blocks as nat),
            r.data_cache_state() == self.data_cache_state(),
    {
        let mut fs = self;
        fs.set_meta_cache_capacity(blocks);
        fs
    }

    /// Resizes the cache of decompressed metadata blocks. Zero switches it
    /// off; what it held is dropped either way.
    pub fn set_meta_cache_capacity(&mut self, blocks: usize)
        requires
            old(self).wf(),
            blocks <= isize::MAX / 64,
        ensures
            final(self).wf(),
            final(self)@ == old(self)@,
            final(self).image() == old(self).image(),
            final(self).dependable() == old(self).dependable(),
            final(self).meta_cache_state() == CacheState::empty(blocks as nat),
            final(self).data_cache_state() == old(self).data_cache_state(),
    {
        self.meta_cache.set_capacity(blocks);
        assert(self.meta_cache.fits(self.dev.image(), self.sb.compression_id));
    }

    /// `(entries, capacity, hits, misses)` for the cache of decompressed
    /// metadata blocks.
    pub fn meta_cache_stats(&self) -> (r: (usize, usize, u64, u64))
        ensures
            r.0 == self.meta_cache_state().entries.len(),
            r.1 == self.meta_cache_state().capacity,
            r.2 == self.meta_cache_state().hits,
            r.3 == self.meta_cache_state().misses,
    {
        self.meta_cache.stats()
    }

    /// The superblock of the image.
    pub fn superblock(&self) -> (r: &Superblock)
        ensures
            *r == self@.sb,
    {
        &self.sb
    }

    /// The compressor of the whole image.
    pub fn compressor(&self) -> (r: Compressor)
        ensures
            r == self@.comp,
    {
        self.comp
    }

    /// The uid that an index in an inode stands for. An index past the table
    /// is an error: uid 0 would be the most privileged answer there is.
    pub fn resolve_uid(&self, idx: u16) -> (r: Result<u32>)
        ensures
            r == (if idx < self@.ids.len() {
                Ok(self@.ids[idx as int])
            } else {
                Err(Error::BadInode("uid index past the id table"))
            }),
    {
        if (idx as usize) < self.id_table.len() {
            Ok(self.id_table[idx as usize])
        } else {
            Err(Error::BadInode("uid index past the id table"))
        }
    }

    /// The gid that an index in an inode stands for. An index past the table
    /// is an error.
    pub fn resolve_gid(&self, idx: u16) -> (r: Result<u32>)
        ensures
            r == (if idx < self@.ids.len() {
                Ok(self@.ids[idx as int])
            } else {
                Err(Error::BadInode("gid index past the id table"))
            }),
    {
        if (idx as usize) < self.id_table.len() {
            Ok(self.id_table[idx as usize])
        } else {
            Err(Error::BadInode("gid index past the id table"))
        }
    }

    /// Reads the inode that a reference names.
    pub fn read_inode(&mut self, inode_ref: u64) -> (r: Result<Inode>)
        requires
            old(self).wf(),
        ensures
            final(self).same_but_metadata(&*old(self)),
            crate::error::settled(old(self).dependable(), r) ==> final(self).meta_cache_state()
                == crate::inode::inode_cache(
                old(self).image(),
                old(self)@.sb,
                inode_ref,
                old(self).meta_cache_state(),
            ),
            crate::inode::inode_outcome(
                old(self).dependable(),
                r,
                crate::inode::inode_at(old(self).image(), old(self)@.sb, inode_ref),
            ),
    {
        Inode::read(&self.dev, &self.sb, inode_ref, &mut self.meta_cache)
    }

    /// Whether inode numbers can be resolved: whether the image has an export
    /// table.
    pub fn is_exportable(&self) -> (r: bool)
        ensures
            r == (self@.exports is Some),
    {
        self.exports.is_some()
    }

    /// The reference of the inode with the given number.
    /// [`Error::NotExportable`] where the image has no export table,
    /// [`Error::NotFound`] for a number that no inode has.
    pub fn inode_ref_for_number(&mut self, inode_number: u32) -> (r: Result<u64>)
        requires
            old(self).wf(),
        ensures
            final(self).same_but_metadata(&*old(self)),
            crate::error::settled(old(self).dependable(), r) ==> final(self).meta_cache_state()
                == numbered_cache(
                old(self).image(),
                old(self)@,
                inode_number,
                old(self).meta_cache_state(),
            ),
            crate::error::outcome(
                old(self).dependable() || !number_is_read(old(self)@, inode_number),
                r,
                numbered(old(self).image(), old(self)@, inode_number),
            ),
    {
        match &self.exports {
            None => Err(Error::NotExportable),
            Some(exports) => exports.lookup(
                &self.dev,
                &self.sb,
                inode_number,
                &mut self.meta_cache,
            ),
        }
    }

    /// Reads the inode with the given number, through the export table.
    pub fn read_inode_by_number(&mut self, inode_number: u32) -> (r: Result<Inode>)
        requires
            old(self).wf(),
        ensures
            final(self).same_but_metadata(&*old(self)),
            crate::error::settled(old(self).dependable(), r) ==> final(self).meta_cache_state()
                == numbered_inode_cache(
                old(self).image(),
                old(self)@,
                inode_number,
                old(self).meta_cache_state(),
            ),
            crate::inode::inode_outcome(
                old(self).dependable() || !number_is_read(old(self)@, inode_number),
                r,
                match numbered(old(self).image(), old(self)@, inode_number) {
                    Err(e) => Err(e),
                    Ok(inode_ref) => crate::inode::inode_at(
                        old(self).image(),
                        old(self)@.sb,
                        inode_ref,
                    ),
                },
            ),
    {
        let inode_ref: u64 = self.inode_ref_for_number(inode_number)?;
        self.read_inode(inode_ref)
    }

    /// Reads the root inode.
    pub fn root_inode(&mut self) -> (r: Result<Inode>)
        requires
            old(self).wf(),
        ensures
            final(self).same_but_metadata(&*old(self)),
            crate::error::settled(old(self).dependable(), r) ==> final(self).meta_cache_state()
                == crate::inode::inode_cache(
                old(self).image(),
                old(self)@.sb,
                old(self)@.sb.root_inode_ref,
                old(self).meta_cache_state(),
            ),
            crate::inode::inode_outcome(
                old(self).dependable(),
                r,
                crate::inode::inode_at(
                    old(self).image(),
                    old(self)@.sb,
                    old(self)@.sb.root_inode_ref,
                ),
            ),
    {
        let root: u64 = self.sb.root_inode_ref;
        self.read_inode(root)
    }

    /// Lists a directory, in the order of the image. `.` and `..` are
    /// implicit, and not among the entries.
    ///
    /// The listing is not bounded by the size of the image: it is compressed
    /// there. The cursor stops where the device runs out.
    pub fn read_dir(&mut self, inode: &Inode) -> (r: Result<Vec<DirEntry>>)
        requires
            old(self).wf(),
        ensures
            final(self).same_but_metadata(&*old(self)),
            crate::error::settled(old(self).dependable(), r) ==> final(self).meta_cache_state()
                == dir_cache(
                old(self).image(),
                old(self)@.sb,
                inode@,
                old(self).meta_cache_state(),
            ),
            ({
                let want = dir_entries(old(self).image(), old(self)@.sb, inode@);
                match r {
                    Ok(v) => want == Ok::<Seq<EntryData>, Error>(crate::dir::entry_data(v@)),
                    Err(e) => want == Err::<Seq<EntryData>, Error>(e) || (!old(
                        self,
                    ).dependable() && e is Block && dir_is_read(inode@)),
                }
            }),
    {
        if !inode.is_dir() {
            return Err(Error::NotADirectory);
        }
        let len: usize = inode.dir_listing_len();
        if len == 0 {
            let none: Vec<DirEntry> = Vec::new();
            assert(crate::dir::entry_data(none@) =~= Seq::empty());
            return Ok(none);
        }
        let at = MetadataRef {
            block_offset: inode.dir_start_block as u64,
            in_block: inode.dir_block_offset,
        };
        let mut cur = MetaCursor::new(
            &self.dev,
            &self.sb,
            at.start_abs(self.sb.directory_table_start),
            at.in_block,
            &mut self.meta_cache,
        )?;
        let buf: Vec<u8> = cur.read_exact(len)?;
        parse_listing(buf.as_slice())
    }

    /// Looks a name up in a directory.
    pub fn lookup(&mut self, dir: &Inode, name: &[u8]) -> (r: Result<Inode>)
        requires
            old(self).wf(),
        ensures
            final(self).same_but_metadata(&*old(self)),
            crate::error::settled(old(self).dependable(), r) ==> final(self).meta_cache_state()
                == child_cache(
                old(self).image(),
                old(self)@.sb,
                dir@,
                name@,
                old(self).meta_cache_state(),
            ),
            crate::inode::inode_outcome(
                old(self).dependable() || !dir_is_read(dir@),
                r,
                child(old(self).image(), old(self)@.sb, dir@, name@),
            ),
    {
        reveal(child);
        reveal(child_cache);
        let entries: Vec<DirEntry> = self.read_dir(dir)?;
        match find_entry(&entries, name) {
            Some(i) => self.read_inode(entries[i].inode_ref),
            None => Err(Error::NotFound),
        }
    }

    /// Resolves a `/`-separated path from the root. Symlinks are returned as
    /// they are, not followed.
    pub fn lookup_path(&mut self, path: &str) -> (r: Result<Inode>)
        requires
            old(self).wf(),
        ensures
            final(self).same_but_metadata(&*old(self)),
            crate::error::settled(old(self).dependable(), r) ==> final(self).meta_cache_state()
                == resolved_cache(
                old(self).image(),
                old(self)@.sb,
                path.spec_bytes(),
                old(self).meta_cache_state(),
            ),
            crate::inode::inode_outcome(
                old(self).dependable(),
                r,
                resolved(old(self).image(), old(self)@.sb, path.spec_bytes()),
            ),
    {
        self.lookup_path_bytes(path.as_bytes())
    }

    /// [`Filesystem::lookup_path`] for a path that need not be UTF-8.
    #[verifier::rlimit(40)]
    pub fn lookup_path_bytes(&mut self, path: &[u8]) -> (r: Result<Inode>)
        requires
            old(self).wf(),
        ensures
            final(self).same_but_metadata(&*old(self)),
            crate::error::settled(old(self).dependable(), r) ==> final(self).meta_cache_state()
                == resolved_cache(
                old(self).image(),
                old(self)@.sb,
                path@,
                old(self).meta_cache_state(),
            ),
            crate::inode::inode_outcome(
                old(self).dependable(),
                r,
                resolved(old(self).image(), old(self)@.sb, path@),
            ),
    {
        let ghost image = self.image();
        let ghost sb = self@.sb;
        let ghost after = resolved_cache(image, sb, path@, self.meta_cache_state());
        let mut node: Inode = self.root_inode()?;
        let mut at: usize = 0;
        assert(path@.skip(0) =~= path@);
        while at < path.len()
            invariant
                at <= path.len(),
                image == old(self).image(),
                sb == old(self)@.sb,
                self.same_but_metadata(&*old(self)),
                after == resolved_cache(image, sb, path@, old(self).meta_cache_state()),
                after == walk_cache(
                    image,
                    sb,
                    node@,
                    crate::path::components(path@.skip(at as int)),
                    self.meta_cache_state(),
                ),
                resolved(image, sb, path@) == walked(
                    image,
                    sb,
                    node@,
                    crate::path::components(path@.skip(at as int)),
                ),
            decreases path.len() - at,
        {
            let ghost rest = path@.skip(at as int);
            if path[at] == SEPARATOR {
                assert(rest.drop_first() =~= path@.skip(at + 1));
                at = at + 1;
                continue;
            }
            let n: usize = name_len_at(path, at);
            proof {
                crate::path::lemma_name_len(rest);
                assert(rest.take(n as int) =~= path@.subrange(at as int, at + n));
                assert(rest.skip(n as int) =~= path@.skip(at + n));
                let names = crate::path::components(rest);
                assert(names[0] == rest.take(n as int));
                assert(names.drop_first() =~= crate::path::components(rest.skip(n as int)));
            }
            if !node.is_dir() {
                return Err(Error::NotADirectory);
            }
            node = self.lookup(&node, &path[at..at + n])?;
            at = at + n;
        }
        assert(crate::path::components(path@.skip(at as int)) =~= Seq::empty());
        Ok(node)
    }

    /// Every extended attribute of an inode, in the order of the image. None
    /// is no error, and neither is an image without attributes.
    pub fn list_xattrs(&mut self, inode: &Inode) -> (r: Result<Vec<XattrEntry>>)
        requires
            old(self).wf(),
        ensures
            final(self).same_but_metadata(&*old(self)),
            crate::error::settled(old(self).dependable(), r) ==> final(self).meta_cache_state()
                == attributes_cache(
                old(self).image(),
                old(self)@,
                inode@,
                old(self).meta_cache_state(),
            ),
            xattr::set_outcome(
                old(self).dependable() || !attributes_are_read(old(self)@, inode@),
                r,
                attributes(old(self).image(), old(self)@, inode@),
            ),
    {
        let none: Vec<XattrEntry> = Vec::new();
        assert(xattr::xattr_data(none@) =~= Seq::empty());
        if !inode.has_xattrs() {
            return Ok(none);
        }
        match &self.xattr_ids {
            None => Ok(none),
            Some(table) => xattr::read_set(
                &self.dev,
                &self.sb,
                table,
                inode.xattr_index,
                &mut self.meta_cache,
            ),
        }
    }

    /// The value of one attribute, by its name with the prefix. `None` where
    /// it is not set, which an empty value is not.
    pub fn get_xattr(&mut self, inode: &Inode, name: &[u8]) -> (r: Result<Option<Vec<u8>>>)
        requires
            old(self).wf(),
        ensures
            final(self).same_but_metadata(&*old(self)),
            crate::error::settled(old(self).dependable(), r) ==> final(self).meta_cache_state()
                == attributes_cache(
                old(self).image(),
                old(self)@,
                inode@,
                old(self).meta_cache_state(),
            ),
            ({
                let want = match attributes(old(self).image(), old(self)@, inode@) {
                    Err(e) => Err(e),
                    Ok(set) => Ok(attribute(set, name@)),
                };
                match r {
                    Ok(Some(v)) => want == Ok::<Option<Seq<u8>>, Error>(Some(v@)),
                    Ok(None) => want == Ok::<Option<Seq<u8>>, Error>(None),
                    Err(e) => want == Err::<Option<Seq<u8>>, Error>(e) || (!old(
                        self,
                    ).dependable() && e is Block && attributes_are_read(old(self)@, inode@)),
                }
            }),
    {
        let mut set: Vec<XattrEntry> = self.list_xattrs(inode)?;
        match find_xattr(&set, name) {
            Some(i) => {
                let found: XattrEntry = set.swap_remove(i);
                Ok(Some(found.value))
            },
            None => Ok(None),
        }
    }

    /// The target of a symlink.
    pub fn read_symlink_target(&self, inode: &Inode) -> (r: Result<Vec<u8>>)
        ensures
            crate::error::bytes_of(r) == (if inode@.kind() == FileType::Symlink {
                Ok(inode@.symlink_target)
            } else {
                Err(Error::BadInode("read_symlink_target on non-symlink"))
            }),
    {
        if !inode.is_symlink() {
            return Err(Error::BadInode("read_symlink_target on non-symlink"));
        }
        let mut target: Vec<u8> = Vec::with_capacity(inode.symlink_target.len());
        target.extend_from_slice(inode.symlink_target.as_slice());
        assert(target@ =~= inode.symlink_target@);
        Ok(target)
    }

    /// Reads up to `buf.len()` bytes of a regular file at `offset` into
    /// `buf`. Returns how many: none at or behind the end of the file, and
    /// fewer than asked for only where the file ends. A block that decodes to
    /// less than its length is an error, never a shorter read. What was copied
    /// before an error stays in `buf`.
    pub fn read_file(&mut self, inode: &Inode, offset: u64, buf: &mut [u8]) -> (r: Result<usize>)
        requires
            old(self).wf(),
        ensures
            final(self).same_but_data(&*old(self)),
            crate::error::settled(old(self).dependable(), r) ==> final(self).data_cache_state()
                == crate::data::file_cache(
                old(self).image(),
                old(self)@.volume(),
                inode@,
                offset as nat,
                old(buf)@.len(),
                old(self).data_cache_state(),
            ),
            final(buf)@.len() == old(buf)@.len(),
            r is Err ==> crate::data::partly_filled(
                old(self).image(),
                old(self)@.volume(),
                inode@,
                offset as nat,
                old(buf)@,
                final(buf)@,
            ),
            ({
                let want = crate::data::file_read(
                    old(self).image(),
                    old(self)@.volume(),
                    inode@,
                    offset as nat,
                    old(buf)@.len(),
                );
                let n = crate::data::read_len(
                    inode.file_size as nat,
                    offset as nat,
                    old(buf)@.len(),
                ) as int;
                &&& final(buf)@.skip(n) == old(buf)@.skip(n)
                &&& match r {
                    Ok(got) => {
                        &&& got == n
                        &&& want == Ok::<Seq<u8>, Error>(final(buf)@.take(n))
                    },
                    Err(e) => want == Err::<Seq<u8>, Error>(e) || (!old(self).dependable()
                        && e is Block && crate::data::file_is_read(
                        old(self)@.volume(),
                        inode@,
                        offset as nat,
                        old(buf)@.len(),
                    )),
                }
            }),
    {
        read_file_data(
            &self.dev,
            self.comp,
            self.sb.block_size,
            &self.fragments,
            inode,
            offset,
            buf,
            &mut self.data_cache,
        )
    }
}

/// What a cache of `blocks` blocks under a mount of `image` is made with: its
/// block size and its capacity. None is made of zero blocks, whatever the
/// image.
pub open spec fn device_cache_of(image: Seq<u8>, blocks: usize) -> Result<Option<(u64, usize)>> {
    if blocks == 0 {
        Ok(None)
    } else {
        match superblock::superblock_of(image) {
            Err(e) => Err(e),
            Ok(sb) => Ok(Some((sb.block_size as u64, blocks))),
        }
    }
}

/// What a cache of `blocks` blocks of the image on `dev` is to be made with:
/// its block size and its capacity. The cache goes under the mount, so it is
/// sized before there is one, in the blocks of the image.
pub fn device_cache<D: BlockRead>(dev: &D, blocks: usize) -> (r: Result<Option<(u64, usize)>>)
    ensures
        crate::error::outcome(
            dev.dependable() || blocks == 0,
            r,
            device_cache_of(dev.image(), blocks),
        ),
{
    if blocks == 0 {
        return Ok(None);
    }
    let sb: Superblock = superblock::read(dev)?;
    Ok(Some((sb.block_size as u64, blocks)))
}

/// Finds the first entry with the given name.
fn find_entry(entries: &Vec<DirEntry>, name: &[u8]) -> (r: Option<usize>)
    ensures
        ({
            let data = crate::dir::entry_data(entries@);
            match r {
                Some(i) => i < data.len() && entry_place(data, name@) == i,
                None => entry_place(data, name@) == data.len(),
            }
        }),
{
    let ghost data = crate::dir::entry_data(entries@);
    let mut i: usize = 0;
    assert(data.skip(0) =~= data);
    while i < entries.len()
        invariant
            i <= entries.len(),
            data == crate::dir::entry_data(entries@),
            entry_place(data, name@) == i + entry_place(data.skip(i as int), name@),
        decreases entries.len() - i,
    {
        assert(data.skip(i as int)[0] == entries@[i as int]@);
        if same_bytes(entries[i].name.as_slice(), name) {
            return Some(i);
        }
        assert(data.skip(i as int).drop_first() =~= data.skip(i + 1));
        i = i + 1;
    }
    None
}

/// Finds the first attribute with the given name.
fn find_xattr(set: &Vec<XattrEntry>, name: &[u8]) -> (r: Option<usize>)
    ensures
        ({
            let data = xattr::xattr_data(set@);
            match r {
                Some(i) => i < data.len() && attribute_place(data, name@) == i,
                None => attribute_place(data, name@) == data.len(),
            }
        }),
{
    let ghost data = xattr::xattr_data(set@);
    let mut i: usize = 0;
    assert(data.skip(0) =~= data);
    while i < set.len()
        invariant
            i <= set.len(),
            data == xattr::xattr_data(set@),
            attribute_place(data, name@) == i + attribute_place(data.skip(i as int), name@),
        decreases set.len() - i,
    {
        assert(data.skip(i as int)[0] == set@[i as int]@);
        if same_bytes(set[i].name.as_slice(), name) {
            return Some(i);
        }
        assert(data.skip(i as int).drop_first() =~= data.skip(i + 1));
        i = i + 1;
    }
    None
}

// ---- laws ----

/// Walking a path of two parts is walking the first and then, from there,
/// the second.
pub proof fn walk_in_pieces(
    image: Seq<u8>,
    sb: Superblock,
    d: InodeData,
    first: Seq<Seq<u8>>,
    second: Seq<Seq<u8>>,
)
    ensures
        walked(image, sb, d, first + second) == (match walked(image, sb, d, first) {
            Err(e) => Err(e),
            Ok(mid) => walked(image, sb, mid, second),
        }),
    decreases first.len(),
{
    if first.len() == 0 {
        assert(first + second =~= second);
    } else {
        assert((first + second).drop_first() =~= first.drop_first() + second);
        if d.kind() == FileType::Dir {
            match child(image, sb, d, first[0]) {
                Err(_) => {},
                Ok(next) => walk_in_pieces(image, sb, next, first.drop_first(), second),
            }
        }
    }
}

/// A separator at the end of a path changes nothing, and the empty path is
/// the root.
pub proof fn path_ends_do_not_matter(image: Seq<u8>, sb: Superblock, path: Seq<u8>)
    ensures
        resolved(image, sb, path.push(SEPARATOR)) == resolved(image, sb, path),
        resolved(image, sb, Seq::empty()) == crate::inode::inode_at(image, sb, sb.root_inode_ref),
{
    crate::path::trailing_separator_changes_nothing(path);
    assert(crate::path::components(Seq::<u8>::empty()) =~= Seq::empty());
}

/// An attribute is found by name exactly where the list of attributes has
/// one of that name, and its value is that of the first.
pub proof fn attribute_is_the_first_of_its_name(set: Seq<XattrData>, name: Seq<u8>)
    ensures
        match attribute(set, name) {
            Some(value) => exists|i: int|
                0 <= i < set.len() && #[trigger] set[i].name == name && set[i].value == value
                    && forall|k: int| 0 <= k < i ==> #[trigger] set[k].name != name,
            None => forall|k: int| 0 <= k < set.len() ==> #[trigger] set[k].name != name,
        },
    decreases set.len(),
{
    if set.len() > 0 {
        if set[0].name == name {
            assert(set[0].name == name);
        } else {
            let rest = set.drop_first();
            attribute_is_the_first_of_its_name(rest, name);
            lemma_attribute_place(set, name);
            let i = attribute_place(set, name) as int;
            if i < set.len() {
                assert(set[i].name == name);
            }
        }
    }
}

proof fn lemma_attribute_place(set: Seq<XattrData>, name: Seq<u8>)
    ensures
        attribute_place(set, name) <= set.len(),
        attribute_place(set, name) < set.len() ==> set[attribute_place(set, name) as int].name
            == name,
        forall|k: int| 0 <= k < attribute_place(set, name) ==> #[trigger] set[k].name != name,
    decreases set.len(),
{
    if set.len() > 0 && set[0].name != name {
        let rest = set.drop_first();
        lemma_attribute_place(rest, name);
        assert forall|k: int| 0 <= k < attribute_place(set, name) implies #[trigger] set[k].name
            != name by {
            if k > 0 {
                assert(rest[k - 1] == set[k]);
            }
        }
    }
}

/// A name is looked up exactly where the listing has it: the inode is that
/// of the first entry of the name, and [`Error::NotFound`] means that there
/// is none, wherever the listing itself can be read and the entries' inodes
/// do exist.
pub proof fn child_is_the_first_of_its_name(
    image: Seq<u8>,
    sb: Superblock,
    d: InodeData,
    name: Seq<u8>,
)
    requires
        dir_entries(image, sb, d) is Ok,
    ensures
        dir_entries(image, sb, d) matches Ok(entries) && ((exists|i: int|
            0 <= i < entries.len() && #[trigger] entries[i].name == name && child(
                image,
                sb,
                d,
                name,
            ) == crate::inode::inode_at(image, sb, entries[i].inode_ref) && forall|k: int|
                0 <= k < i ==> #[trigger] entries[k].name != name) || (child(image, sb, d, name)
            == Err::<InodeData, Error>(Error::NotFound) && forall|k: int|
            0 <= k < entries.len() ==> #[trigger] entries[k].name != name)),
{
    reveal(child);
    let entries = dir_entries(image, sb, d)->Ok_0;
    lemma_entry_place(entries, name);
    let i = entry_place(entries, name) as int;
    if i < entries.len() {
        assert(entries[i].name == name);
    }
}

proof fn lemma_entry_place(entries: Seq<EntryData>, name: Seq<u8>)
    ensures
        entry_place(entries, name) <= entries.len(),
        entry_place(entries, name) < entries.len() ==> entries[entry_place(
            entries,
            name,
        ) as int].name == name,
        forall|k: int| 0 <= k < entry_place(entries, name) ==> #[trigger] entries[k].name != name,
    decreases entries.len(),
{
    if entries.len() > 0 && entries[0].name != name {
        let rest = entries.drop_first();
        lemma_entry_place(rest, name);
        assert forall|k: int| 0 <= k < entry_place(entries, name) implies #[trigger] entries[k].name
            != name by {
            if k > 0 {
                assert(rest[k - 1] == entries[k]);
            }
        }
    }
}

/// An image without an export table resolves no inode number, and says so
/// differently from one that has no inode of that number.
pub proof fn missing_export_table_is_not_a_missing_inode(
    image: Seq<u8>,
    m: Mount,
    inode_number: u32,
)
    ensures
        m.exports is None ==> numbered(image, m, inode_number) == Err::<u64, Error>(
            Error::NotExportable,
        ),
        m.exports matches Some(t) ==> (inode_number == 0 || inode_number > t.inode_count)
            ==> numbered(image, m, inode_number) == Err::<u64, Error>(Error::NotFound),
{
}

/// A mount in order has a valid superblock, and the compressor that it names:
/// what the laws of its files ask for.
pub proof fn mount_in_order_is_sound<D: BlockRead>(fs: &Filesystem<D>)
    requires
        fs.wf(),
    ensures
        fs@.sb.wf(),
        fs@.volume().block_size > 0,
        crate::decompress::compressor_of(fs@.sb.compression_id) == Ok::<Compressor, Error>(
            fs@.comp,
        ),
{
}

/// Neither cache of a mount in order holds more blocks than it was made for.
pub proof fn caches_are_within_capacity<D: BlockRead>(fs: &Filesystem<D>)
    requires
        fs.wf(),
    ensures
        fs.meta_cache_state().entries.len() <= fs.meta_cache_state().capacity,
        fs.data_cache_state().entries.len() <= fs.data_cache_state().capacity,
{
    crate::metablock::meta_cache_is_within_capacity(&fs.meta_cache);
    crate::cache::cache_is_within_capacity(&fs.data_cache);
}

/// A mounted image has a superblock with a sound block size that fits its
/// device.
pub proof fn mounted_superblock_is_sound(image: Seq<u8>)
    requires
        mounted(image) is Ok,
    ensures
        mounted(image) matches Ok(m) && superblock::superblock_of(image) == Ok::<
            Superblock,
            Error,
        >(m.sb) && m.sb.wf() && m.sb.placed(image.len() as u64) is Ok,
{
    superblock::superblock_has_a_sound_block_size(image);
}

} // verus!
