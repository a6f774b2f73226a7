//! What the C interface hands out, as plain values.
//!
//! The C entry points themselves deal in raw pointers. Everything they decide
//! is decided here: what an attribute record holds, how a name is cut to its
//! field, how much of an answer fits a buffer, and which errno a failure is
//! reported as.

use vstd::prelude::*;
use vstd::string::*;

use crate::cache::CacheState;
use crate::device::BlockRead;
use crate::dir::{DirEntry, EntryData};
use crate::error::{Error, Result, EINVAL, ENOENT, ENOTDIR, ERANGE};
use crate::fs::{Filesystem, Mount};
use crate::inode::{FileType, Inode, InodeData};
use crate::xattr::{XattrData, XattrEntry};

verus! {

// ---- failures ----

/// Why a C entry point failed.
#[derive(Debug)]
pub enum AbiError {
    /// The filesystem reported this error.
    Fs(Error),
    /// The path names a directory, and reading its entries failed so.
    Listing(Error),
    /// The path does not name a directory.
    NotADirectory,
    /// The path does not name a regular file.
    NotARegularFile,
    /// The path does not name a symlink.
    NotASymlink,
    /// The buffer has no room for the answer.
    BufferTooSmall,
    /// The inode has no attribute of that name.
    NoAttribute,
}

impl AbiError {
    /// The errno this failure is reported as.
    pub open spec fn errno(&self) -> i32 {
        match *self {
            AbiError::Fs(e) => e.errno(),
            AbiError::Listing(e) => e.errno(),
            AbiError::NotADirectory => ENOTDIR,
            AbiError::NotARegularFile => EINVAL,
            AbiError::NotASymlink => EINVAL,
            AbiError::BufferTooSmall => ERANGE,
            AbiError::NoAttribute => ENOENT,
        }
    }

    /// The errno this failure is reported as.
    pub fn to_errno(&self) -> (r: i32)
        ensures
            r == self.errno(),
    {
        match self {
            AbiError::Fs(e) => e.to_errno(),
            AbiError::Listing(e) => e.to_errno(),
            AbiError::NotADirectory => ENOTDIR,
            AbiError::NotARegularFile => EINVAL,
            AbiError::NotASymlink => EINVAL,
            AbiError::BufferTooSmall => ERANGE,
            AbiError::NoAttribute => ENOENT,
        }
    }

    /// The text of this failure.
    pub open spec fn text(&self) -> Seq<char> {
        match *self {
            AbiError::Fs(e) => e.text(),
            AbiError::Listing(e) => e.text(),
            AbiError::NotADirectory => "not a directory"@,
            AbiError::NotARegularFile => "not a regular file"@,
            AbiError::NotASymlink => "not a symlink"@,
            AbiError::BufferTooSmall => "buffer too small"@,
            AbiError::NoAttribute => "no such attribute"@,
        }
    }

    /// This failure in words.
    pub fn to_string(&self) -> (r: String)
        ensures
            r@ == self.text(),
    {
        match self {
            AbiError::Fs(e) => e.to_string(),
            AbiError::Listing(e) => e.to_string(),
            AbiError::NotADirectory => String::from_str("not a directory"),
            AbiError::NotARegularFile => String::from_str("not a regular file"),
            AbiError::NotASymlink => String::from_str("not a symlink"),
            AbiError::BufferTooSmall => String::from_str("buffer too small"),
            AbiError::NoAttribute => String::from_str("no such attribute"),
        }
    }
}

/// Whether a failure is that of the device.
pub open spec fn of_the_device(e: AbiError) -> bool {
    e matches AbiError::Fs(Error::Block(_)) || e matches AbiError::Listing(Error::Block(_))
}

/// What an entry point returned, against what the image calls for.
pub open spec fn abi_outcome<T>(
    dependable: bool,
    got: core::result::Result<T, AbiError>,
    want: core::result::Result<T, AbiError>,
) -> bool {
    got == want || (!dependable && (got matches Err(e) && of_the_device(e)))
}

/// Whether the image alone decides what an entry point has done: its device is
/// dependable, or the entry point did not fail on it.
pub open spec fn abi_settled<T>(dependable: bool, got: core::result::Result<T, AbiError>) -> bool {
    dependable || !(got matches Err(e) && of_the_device(e))
}

// ---- attributes ----

/// The attributes of an inode.
#[allow(non_camel_case_types)]
#[derive(Debug, Clone, Copy)]
pub struct fs_squashfs_attr_t {
    pub inode: u32,
    /// Permission bits, without the type bits.
    pub mode: u16,
    pub uid: u32,
    pub gid: u32,
    pub size: u64,
    pub mtime: u32,
    pub link_count: u32,
    /// The code of the kind of file.
    pub file_type: u32,
    /// The device number of a device, else 0.
    pub rdev: u32,
}

/// The attributes of the inode `d`, unless an index in it is past the id
/// table.
pub open spec fn attr_of(m: Mount, d: InodeData) -> Result<fs_squashfs_attr_t> {
    if d.uid_idx >= m.ids.len() {
        Err(Error::BadInode("uid index past the id table"))
    } else if d.gid_idx >= m.ids.len() {
        Err(Error::BadInode("gid index past the id table"))
    } else {
        Ok(
            fs_squashfs_attr_t {
                inode: d.inode_number,
                mode: d.permissions & 0o7777,
                uid: m.ids[d.uid_idx as int],
                gid: m.ids[d.gid_idx as int],
                size: d.file_size,
                mtime: d.mtime,
                link_count: d.nlink,
                file_type: d.kind().abi_code() as u32,
                rdev: d.rdev,
            },
        )
    }
}

/// The attributes of an inode.
pub fn fill_attr<D: BlockRead>(fs: &Filesystem<D>, inode: &Inode) -> (r: Result<fs_squashfs_attr_t>)
    ensures
        r == attr_of(fs@, inode@),
{
    let uid: u32 = fs.resolve_uid(inode.uid_idx)?;
    let gid: u32 = fs.resolve_gid(inode.gid_idx)?;
    Ok(
        fs_squashfs_attr_t {
            inode: inode.inode_number,
            mode: inode.permissions & 0o7777,
            uid,
            gid,
            size: inode.file_size,
            mtime: inode.mtime,
            link_count: inode.nlink,
            file_type: inode.file_type().to_abi() as u32,
            rdev: inode.rdev,
        },
    )
}

/// The attributes of what an inode was read from, or why there are none.
pub open spec fn stat_of(m: Mount, found: Result<InodeData>) -> core::result::Result<
    fs_squashfs_attr_t,
    AbiError,
> {
    match found {
        Err(e) => Err(AbiError::Fs(e)),
        Ok(d) => match attr_of(m, d) {
            Err(e) => Err(AbiError::Fs(e)),
            Ok(attr) => Ok(attr),
        },
    }
}

/// The attributes of the inode at a path.
pub fn stat<D: BlockRead>(fs: &mut Filesystem<D>, path: &[u8]) -> (r: core::result::Result<
    fs_squashfs_attr_t,
    AbiError,
>)
    requires
        old(fs).wf(),
    ensures
        final(fs).same_but_metadata(&*old(fs)),
        abi_settled(old(fs).dependable(), r) ==> final(fs).meta_cache_state()
            == crate::fs::resolved_cache(
            old(fs).image(),
            old(fs)@.sb,
            path@,
            old(fs).meta_cache_state(),
        ),
        abi_outcome(
            old(fs).dependable(),
            r,
            stat_of(old(fs)@, crate::fs::resolved(old(fs).image(), old(fs)@.sb, path@)),
        ),
{
    let inode: Inode = match fs.lookup_path_bytes(path) {
        Ok(i) => i,
        Err(e) => return Err(AbiError::Fs(e)),
    };
    match fill_attr(fs, &inode) {
        Ok(attr) => Ok(attr),
        Err(e) => Err(AbiError::Fs(e)),
    }
}

/// The attributes of the inode with the given number.
pub fn stat_ino<D: BlockRead>(
    fs: &mut Filesystem<D>,
    inode_number: u32,
) -> (r: core::result::Result<fs_squashfs_attr_t, AbiError>)
    requires
        old(fs).wf(),
    ensures
        final(fs).same_but_metadata(&*old(fs)),
        abi_settled(old(fs).dependable(), r) ==> final(fs).meta_cache_state()
            == crate::fs::numbered_inode_cache(
            old(fs).image(),
            old(fs)@,
            inode_number,
            old(fs).meta_cache_state(),
        ),
        abi_outcome(
            old(fs).dependable() || !crate::fs::number_is_read(old(fs)@, inode_number),
            r,
            stat_of(
                old(fs)@,
                match crate::fs::numbered(old(fs).image(), old(fs)@, inode_number) {
                    Err(e) => Err(e),
                    Ok(at) => crate::inode::inode_at(old(fs).image(), old(fs)@.sb, at),
                },
            ),
        ),
{
    let inode: Inode = match fs.read_inode_by_number(inode_number) {
        Ok(i) => i,
        Err(e) => return Err(AbiError::Fs(e)),
    };
    match fill_attr(fs, &inode) {
        Ok(attr) => Ok(attr),
        Err(e) => Err(AbiError::Fs(e)),
    }
}

// ---- text in fixed fields ----

/// `text` at the start of a field of `room` bytes, cut so that a zero byte
/// follows it, and zeros behind.
pub open spec fn field(text: Seq<u8>, room: nat) -> Seq<u8> {
    Seq::new(
        room,
        |i: int|
            if i < text.len() && i < room - 1 {
                text[i]
            } else {
                0
            },
    )
}

/// How much of `text` a field of `room` bytes holds.
pub open spec fn field_len(text: Seq<u8>, room: nat) -> nat {
    if text.len() < room {
        text.len()
    } else {
        (room - 1) as nat
    }
}

// ---- directories ----

/// A directory entry. The field for the name holds 256 bytes, the most that
/// a name can have, and a zero byte.
#[allow(non_camel_case_types)]
#[derive(Debug, Clone, Copy)]
pub struct fs_squashfs_dirent_t {
    pub inode: u32,
    /// The code of the kind of file.
    pub file_type: u8,
    pub name_len: u16,
    pub name: [u8; 257],
}

/// Whether a record holds the given entry.
pub open spec fn is_dirent(r: fs_squashfs_dirent_t, e: EntryData) -> bool {
    &&& r.inode == e.inode_number
    &&& r.file_type == crate::inode::type_of(e.type_id).abi_code()
    &&& r.name_len == field_len(e.name, 257)
    &&& r.name@ == field(e.name, 257)
}

/// The record for a directory entry.
pub fn dir_entry_to_abi(e: &DirEntry) -> (r: fs_squashfs_dirent_t)
    ensures
        is_dirent(r, e@),
{
    let mut name: [u8; 257] = [0u8; 257];
    let copy: usize = if e.name.len() < 257 {
        e.name.len()
    } else {
        256
    };
    let mut i: usize = 0;
    while i < copy
        invariant
            i <= copy,
            copy == field_len(e.name@, 257),
            name@.len() == 257,
            forall|k: int| 0 <= k < i ==> name@[k] == e.name@[k],
            forall|k: int| i <= k < 257 ==> name@[k] == 0,
        decreases copy - i,
    {
        name[i] = e.name[i];
        i = i + 1;
    }
    assert(name@ =~= field(e.name@, 257));
    fs_squashfs_dirent_t {
        inode: e.inode_number,
        file_type: FileType::from_type_id(e.type_id).to_abi(),
        name_len: copy as u16,
        name,
    }
}

/// A name of up to 256 bytes is handed out in full, with its length.
pub proof fn names_are_not_cut(r: fs_squashfs_dirent_t, e: EntryData)
    requires
        is_dirent(r, e),
        e.name.len() <= 256,
    ensures
        r.name_len == e.name.len(),
        r.name@.take(r.name_len as int) == e.name,
        r.name@[r.name_len as int] == 0,
{
    assert(r.name@.take(r.name_len as int) =~= e.name);
}

/// The entries of the directory at a path.
pub open spec fn opened_dir(image: Seq<u8>, m: Mount, path: Seq<u8>) -> core::result::Result<
    Seq<EntryData>,
    AbiError,
> {
    match crate::fs::resolved(image, m.sb, path) {
        Err(e) => Err(AbiError::Fs(e)),
        Ok(d) => if d.kind() != FileType::Dir {
            Err(AbiError::NotADirectory)
        } else {
            match crate::fs::dir_entries(image, m.sb, d) {
                Err(e) => Err(AbiError::Listing(e)),
                Ok(entries) => Ok(entries),
            }
        },
    }
}

/// The cache of metadata blocks after the directory at a path was listed.
pub open spec fn opened_dir_cache(
    image: Seq<u8>,
    m: Mount,
    path: Seq<u8>,
    cache: CacheState,
) -> CacheState {
    let after = crate::fs::resolved_cache(image, m.sb, path, cache);
    match crate::fs::resolved(image, m.sb, path) {
        Err(_) => after,
        Ok(d) => crate::fs::dir_cache(image, m.sb, d, after),
    }
}

/// The records of the directory at a path.
pub fn dir_open<D: BlockRead>(fs: &mut Filesystem<D>, path: &[u8]) -> (r: core::result::Result<
    Vec<fs_squashfs_dirent_t>,
    AbiError,
>)
    requires
        old(fs).wf(),
    ensures
        final(fs).same_but_metadata(&*old(fs)),
        abi_settled(old(fs).dependable(), r) ==> final(fs).meta_cache_state()
            == opened_dir_cache(
            old(fs).image(),
            old(fs)@,
            path@,
            old(fs).meta_cache_state(),
        ),
        ({
            let want = opened_dir(old(fs).image(), old(fs)@, path@);
            match r {
                Ok(v) => {
                    &&& want is Ok
                    &&& v@.len() == (want->Ok_0).len()
                    &&& forall|i: int|
                        0 <= i < v@.len() ==> is_dirent(#[trigger] v@[i], (want->Ok_0)[i])
                },
                Err(e) => want == Err::<Seq<EntryData>, AbiError>(e) || (!old(fs).dependable()
                    && of_the_device(e)),
            }
        }),
{
    let inode: Inode = match fs.lookup_path_bytes(path) {
        Ok(i) => i,
        Err(e) => return Err(AbiError::Fs(e)),
    };
    if !inode.is_dir() {
        return Err(AbiError::NotADirectory);
    }
    let entries: Vec<DirEntry> = match fs.read_dir(&inode) {
        Ok(v) => v,
        Err(e) => return Err(AbiError::Listing(e)),
    };
    Ok(dirents(&entries))
}

fn dirents(entries: &Vec<DirEntry>) -> (r: Vec<fs_squashfs_dirent_t>)
    ensures
        r@.len() == entries@.len(),
        forall|k: int|
            0 <= k < r@.len() ==> is_dirent(#[trigger] r@[k], crate::dir::entry_data(entries@)[k]),
{
    let mut out: Vec<fs_squashfs_dirent_t> = Vec::new();
    let mut i: usize = 0;
    while i < entries.len()
        invariant
            i <= entries.len(),
            out@.len() == i,
            forall|k: int|
                0 <= k < i ==> is_dirent(
                    #[trigger] out@[k],
                    crate::dir::entry_data(entries@)[k],
                ),
        decreases entries.len() - i,
    {
        out.push(dir_entry_to_abi(&entries[i]));
        i = i + 1;
    }
    out
}

// ---- files and symlinks ----

/// How many bytes a read of `length` bytes may need: never more than the
/// file has, nor than a buffer can hold.
pub open spec fn clamped(length: u64, file_size: u64) -> usize {
    let n = if length < file_size {
        length
    } else {
        file_size
    };
    if n < usize::MAX {
        n as usize
    } else {
        usize::MAX
    }
}

/// The regular file at a path.
pub open spec fn opened_file(image: Seq<u8>, m: Mount, path: Seq<u8>) -> core::result::Result<
    InodeData,
    AbiError,
> {
    match crate::fs::resolved(image, m.sb, path) {
        Err(e) => Err(AbiError::Fs(e)),
        Ok(d) => if d.kind() != FileType::RegFile {
            Err(AbiError::NotARegularFile)
        } else {
            Ok(d)
        },
    }
}

/// The regular file at a path, and how large a buffer a read of `length`
/// bytes of it needs.
pub fn file_open<D: BlockRead>(
    fs: &mut Filesystem<D>,
    path: &[u8],
    length: u64,
) -> (r: core::result::Result<(Inode, usize), AbiError>)
    requires
        old(fs).wf(),
    ensures
        final(fs).same_but_metadata(&*old(fs)),
        abi_settled(old(fs).dependable(), r) ==> final(fs).meta_cache_state()
            == crate::fs::resolved_cache(
            old(fs).image(),
            old(fs)@.sb,
            path@,
            old(fs).meta_cache_state(),
        ),
        ({
            let want = opened_file(old(fs).image(), old(fs)@, path@);
            match r {
                Ok((inode, room)) => {
                    &&& want == Ok::<InodeData, AbiError>(inode@)
                    &&& room == clamped(length, inode.file_size)
                },
                Err(e) => want == Err::<InodeData, AbiError>(e) || (!old(fs).dependable()
                    && of_the_device(e)),
            }
        }),
{
    let inode: Inode = match fs.lookup_path_bytes(path) {
        Ok(i) => i,
        Err(e) => return Err(AbiError::Fs(e)),
    };
    if !inode.is_regular_file() {
        return Err(AbiError::NotARegularFile);
    }
    let n: u64 = if length < inode.file_size {
        length
    } else {
        inode.file_size
    };
    let room: usize = if n < usize::MAX as u64 {
        n as usize
    } else {
        usize::MAX
    };
    Ok((inode, room))
}

/// The target of the symlink at a path and a zero byte, if `bufsize` bytes
/// hold them.
pub open spec fn link_read(image: Seq<u8>, m: Mount, path: Seq<u8>, bufsize: nat) -> core::result::Result<
    Seq<u8>,
    AbiError,
> {
    match crate::fs::resolved(image, m.sb, path) {
        Err(e) => Err(AbiError::Fs(e)),
        Ok(d) => if d.kind() != FileType::Symlink {
            Err(AbiError::NotASymlink)
        } else if d.symlink_target.len() + 1 > bufsize {
            Err(AbiError::BufferTooSmall)
        } else {
            Ok(d.symlink_target.push(0))
        },
    }
}

/// The target of the symlink at a path and a zero byte, for a buffer of
/// `bufsize` bytes.
pub fn readlink<D: BlockRead>(
    fs: &mut Filesystem<D>,
    path: &[u8],
    bufsize: usize,
) -> (r: core::result::Result<Vec<u8>, AbiError>)
    requires
        old(fs).wf(),
    ensures
        final(fs).same_but_metadata(&*old(fs)),
        abi_settled(old(fs).dependable(), r) ==> final(fs).meta_cache_state()
            == crate::fs::resolved_cache(
            old(fs).image(),
            old(fs)@.sb,
            path@,
            old(fs).meta_cache_state(),
        ),
        abi_outcome(
            old(fs).dependable(),
            match r {
                Ok(v) => Ok(v@),
                Err(e) => Err(e),
            },
            link_read(old(fs).image(), old(fs)@, path@, bufsize as nat),
        ),
{
    let inode: Inode = match fs.lookup_path_bytes(path) {
        Ok(i) => i,
        Err(e) => return Err(AbiError::Fs(e)),
    };
    if !inode.is_symlink() {
        return Err(AbiError::NotASymlink);
    }
    if inode.symlink_target.len() >= bufsize {
        return Err(AbiError::BufferTooSmall);
    }
    let mut target: Vec<u8> = inode.symlink_target;
    target.push(0);
    Ok(target)
}

// ---- extended attributes ----

/// The names of a set of attributes, each with a zero byte behind it.
pub open spec fn name_list(set: Seq<XattrData>) -> Seq<u8>
    decreases set.len(),
{
    if set.len() == 0 {
        Seq::empty()
    } else {
        set[0].name.push(0) + name_list(set.drop_first())
    }
}

/// As many names from the start of the list as fit `room` bytes whole.
pub open spec fn names_within(set: Seq<XattrData>, room: nat) -> Seq<u8>
    decreases set.len(),
{
    if set.len() == 0 || set[0].name.len() + 1 > room {
        Seq::empty()
    } else {
        set[0].name.push(0) + names_within(
            set.drop_first(),
            (room - set[0].name.len() - 1) as nat,
        )
    }
}

/// What a caller with a buffer of `room` bytes gets of the names of `set`:
/// those that fit it whole, and how many bytes all of them take.
pub fn list_names(set: &Vec<XattrEntry>, room: usize) -> (r: (Vec<u8>, usize))
    ensures
        r.0@ == names_within(crate::xattr::xattr_data(set@), room as nat),
        r.1 == name_list(crate::xattr::xattr_data(set@)).len(),
        r.0@.len() <= room,
{
    let ghost data = crate::xattr::xattr_data(set@);
    let mut all: Vec<u8> = Vec::new();
    // How much of it the buffer takes, and whether it takes no more.
    let mut taken: usize = 0;
    let mut full: bool = false;
    let mut i: usize = 0;
    proof {
        assert(data.skip(0) =~= data);
        assert(all@.take(0) =~= Seq::empty());
        assert(Seq::<u8>::empty() + name_list(data) =~= name_list(data));
        assert(Seq::<u8>::empty() + names_within(data, room as nat) =~= names_within(
            data,
            room as nat,
        ));
    }
    while i < set.len()
        invariant
            i <= set.len(),
            data == crate::xattr::xattr_data(set@),
            taken <= room,
            taken <= all@.len(),
            !full ==> taken == all@.len(),
            name_list(data) == all@ + name_list(data.skip(i as int)),
            full ==> names_within(data, room as nat) == all@.take(taken as int),
            !full ==> names_within(data, room as nat) == all@ + names_within(
                data.skip(i as int),
                (room - taken) as nat,
            ),
        decreases set.len() - i,
    {
        let ghost rest = data.skip(i as int);
        let ghost before = all@;
        let name: &Vec<u8> = &set[i].name;
        proof {
            assert(rest[0] == set@[i as int]@);
            assert(rest.drop_first() =~= data.skip(i + 1));
        }
        if !full && name.len() >= room - taken {
            full = true;
            assert(before + Seq::<u8>::empty() =~= before.take(taken as int));
        }
        all.extend_from_slice(name.as_slice());
        all.push(0);
        proof {
            assert(all@ =~= before + name@.push(0));
            assert(before + (name@.push(0) + name_list(data.skip(i + 1))) =~= all@ + name_list(
                data.skip(i + 1),
            ));
            assert(all@.take(taken as int) =~= before.take(taken as int));
        }
        if !full {
            proof {
                let more = names_within(data.skip(i + 1), (room - taken - name@.len() - 1) as nat);
                assert(before + (name@.push(0) + more) =~= all@ + more);
            }
            taken = all.len();
        }
        i = i + 1;
    }
    let needed: usize = all.len();
    proof {
        assert(data.skip(i as int) =~= Seq::empty());
        assert(all@ + Seq::<u8>::empty() =~= all@);
        assert(all@.take(all@.len() as int) =~= all@);
    }
    all.truncate(taken);
    assert(all@ =~= names_within(data, room as nat));
    (all, needed)
}

/// A buffer as large as asked for takes all the names, whole.
pub proof fn room_for_all_takes_all(set: Seq<XattrData>, room: nat)
    requires
        room >= name_list(set).len(),
    ensures
        names_within(set, room) == name_list(set),
    decreases set.len(),
{
    if set.len() > 0 {
        room_for_all_takes_all(set.drop_first(), (room - set[0].name.len() - 1) as nat);
    }
}

/// What a smaller buffer takes is the start of the whole list.
pub proof fn names_within_start_the_list(set: Seq<XattrData>, room: nat)
    ensures
        names_within(set, room).len() <= room,
        names_within(set, room).len() <= name_list(set).len(),
        name_list(set).take(names_within(set, room).len() as int) == names_within(set, room),
    decreases set.len(),
{
    if set.len() > 0 && set[0].name.len() + 1 <= room {
        let rest = set.drop_first();
        let left = (room - set[0].name.len() - 1) as nat;
        names_within_start_the_list(rest, left);
        let head = set[0].name.push(0);
        assert(name_list(set).take(names_within(set, room).len() as int) =~= head + name_list(
            rest,
        ).take(names_within(rest, left).len() as int));
    } else {
        assert(name_list(set).take(0) =~= Seq::empty());
    }
}

/// The attributes of the inode at a path.
pub open spec fn listed(image: Seq<u8>, m: Mount, path: Seq<u8>) -> core::result::Result<
    Seq<XattrData>,
    AbiError,
> {
    match crate::fs::resolved(image, m.sb, path) {
        Err(e) => Err(AbiError::Fs(e)),
        Ok(d) => match crate::fs::attributes(image, m, d) {
            Err(e) => Err(AbiError::Fs(e)),
            Ok(set) => Ok(set),
        },
    }
}

/// The cache of metadata blocks after the attributes at a path were read.
pub open spec fn listed_cache(
    image: Seq<u8>,
    m: Mount,
    path: Seq<u8>,
    cache: CacheState,
) -> CacheState {
    let after = crate::fs::resolved_cache(image, m.sb, path, cache);
    match crate::fs::resolved(image, m.sb, path) {
        Err(_) => after,
        Ok(d) => crate::fs::attributes_cache(image, m, d, after),
    }
}

/// The attributes of the inode at a path.
pub fn xattrs_at<D: BlockRead>(fs: &mut Filesystem<D>, path: &[u8]) -> (r: core::result::Result<
    Vec<XattrEntry>,
    AbiError,
>)
    requires
        old(fs).wf(),
    ensures
        final(fs).same_but_metadata(&*old(fs)),
        abi_settled(old(fs).dependable(), r) ==> final(fs).meta_cache_state()
            == listed_cache(
            old(fs).image(),
            old(fs)@,
            path@,
            old(fs).meta_cache_state(),
        ),
        abi_outcome(
            old(fs).dependable(),
            match r {
                Ok(v) => Ok(crate::xattr::xattr_data(v@)),
                Err(e) => Err(e),
            },
            listed(old(fs).image(), old(fs)@, path@),
        ),
{
    let inode: Inode = match fs.lookup_path_bytes(path) {
        Ok(i) => i,
        Err(e) => return Err(AbiError::Fs(e)),
    };
    match fs.list_xattrs(&inode) {
        Ok(set) => Ok(set),
        Err(e) => Err(AbiError::Fs(e)),
    }
}

/// The value of the attribute `name` of the inode at a path.
pub open spec fn attribute_at(image: Seq<u8>, m: Mount, path: Seq<u8>, name: Seq<u8>) -> core::result::Result<
    Seq<u8>,
    AbiError,
> {
    match listed(image, m, path) {
        Err(e) => Err(e),
        Ok(set) => match crate::fs::attribute(set, name) {
            None => Err(AbiError::NoAttribute),
            Some(value) => Ok(value),
        },
    }
}

/// The value of the attribute `name` of the inode at a path.
pub fn getxattr<D: BlockRead>(
    fs: &mut Filesystem<D>,
    path: &[u8],
    name: &[u8],
) -> (r: core::result::Result<Vec<u8>, AbiError>)
    requires
        old(fs).wf(),
    ensures
        final(fs).same_but_metadata(&*old(fs)),
        abi_settled(old(fs).dependable(), r) ==> final(fs).meta_cache_state()
            == listed_cache(
            old(fs).image(),
            old(fs)@,
            path@,
            old(fs).meta_cache_state(),
        ),
        abi_outcome(
            old(fs).dependable(),
            match r {
                Ok(v) => Ok(v@),
                Err(e) => Err(e),
            },
            attribute_at(old(fs).image(), old(fs)@, path@, name@),
        ),
{
    let inode: Inode = match fs.lookup_path_bytes(path) {
        Ok(i) => i,
        Err(e) => return Err(AbiError::Fs(e)),
    };
    match fs.get_xattr(&inode, name) {
        Ok(Some(value)) => Ok(value),
        Ok(None) => Err(AbiError::NoAttribute),
        Err(e) => Err(AbiError::Fs(e)),
    }
}

// ---- the volume ----

/// What is told of a mounted image.
#[allow(non_camel_case_types)]
#[derive(Debug, Clone, Copy)]
pub struct fs_squashfs_volume_info_t {
    pub block_size: u32,
    pub compression_id: u16,
    pub compression_name: [u8; 16],
    pub inode_count: u32,
    pub fragment_count: u32,
    pub id_count: u16,
    pub bytes_used: u64,
    pub mkfs_time: u32,
    pub version_major: u16,
    pub version_minor: u16,
    pub flags: u16,
}

/// The name of a compressor, in bytes.
pub open spec fn compressor_bytes(comp: crate::decompress::Compressor) -> Seq<u8> {
    match comp {
        crate::decompress::Compressor::Gzip => seq![0x67u8, 0x7A, 0x69, 0x70],
        crate::decompress::Compressor::Lzma => seq![0x6Cu8, 0x7A, 0x6D, 0x61],
        crate::decompress::Compressor::Lzo => seq![0x6Cu8, 0x7A, 0x6F],
        crate::decompress::Compressor::Xz => seq![0x78u8, 0x7A],
        crate::decompress::Compressor::Lz4 => seq![0x6Cu8, 0x7A, 0x34],
        crate::decompress::Compressor::Zstd => seq![0x7Au8, 0x73, 0x74, 0x64],
    }
}

/// Whether `info` tells of the mount `m`.
pub open spec fn is_info_of(info: fs_squashfs_volume_info_t, m: Mount) -> bool {
    &&& info.block_size == m.sb.block_size
    &&& info.compression_id == m.sb.compression_id
    &&& info.compression_name@ == field(compressor_bytes(m.comp), 16)
    &&& info.inode_count == m.sb.inode_count
    &&& info.fragment_count == m.sb.fragment_entry_count
    &&& info.id_count == m.sb.id_count
    &&& info.bytes_used == m.sb.bytes_used
    &&& info.mkfs_time == m.sb.modification_time
    &&& info.version_major == m.sb.version_major
    &&& info.version_minor == m.sb.version_minor
    &&& info.flags == m.sb.flags
}

fn compressor_field(comp: crate::decompress::Compressor) -> (r: [u8; 16])
    ensures
        r@ == field(compressor_bytes(comp), 16),
{
    let text: Vec<u8> = match comp {
        crate::decompress::Compressor::Gzip => vec![0x67u8, 0x7A, 0x69, 0x70],
        crate::decompress::Compressor::Lzma => vec![0x6Cu8, 0x7A, 0x6D, 0x61],
        crate::decompress::Compressor::Lzo => vec![0x6Cu8, 0x7A, 0x6F],
        crate::decompress::Compressor::Xz => vec![0x78u8, 0x7A],
        crate::decompress::Compressor::Lz4 => vec![0x6Cu8, 0x7A, 0x34],
        crate::decompress::Compressor::Zstd => vec![0x7Au8, 0x73, 0x74, 0x64],
    };
    assert(text@ =~= compressor_bytes(comp));
    let mut name: [u8; 16] = [0u8; 16];
    let mut i: usize = 0;
    while i < text.len()
        invariant
            i <= text.len() < 16,
            name@.len() == 16,
            forall|k: int| 0 <= k < i ==> name@[k] == text@[k],
            forall|k: int| i <= k < 16 ==> name@[k] == 0,
        decreases text.len() - i,
    {
        name[i] = text[i];
        i = i + 1;
    }
    assert(name@ =~= field(text@, 16));
    name
}

/// What is told of a mounted image.
pub fn volume_info<D: BlockRead>(fs: &Filesystem<D>) -> (r: fs_squashfs_volume_info_t)
    ensures
        is_info_of(r, fs@),
{
    let sb: &crate::superblock::Superblock = fs.superblock();
    fs_squashfs_volume_info_t {
        block_size: sb.block_size,
        compression_id: sb.compression_id,
        compression_name: compressor_field(fs.compressor()),
        inode_count: sb.inode_count,
        fragment_count: sb.fragment_entry_count,
        id_count: sb.id_count,
        bytes_used: sb.bytes_used,
        mkfs_time: sb.modification_time,
        version_major: sb.version_major,
        version_minor: sb.version_minor,
        flags: sb.flags,
    }
}

} // verus!
