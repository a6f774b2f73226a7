//! What is reported of an image, against what was written.

use vstd::prelude::*;

use crate::capi::{fs_squashfs_attr_t, fs_squashfs_dirent_t, fs_squashfs_volume_info_t, AbiError};
use crate::dir::EntryData;
use crate::error::{Error, Result};
use crate::fs::Mount;
use crate::inode::InodeData;
use crate::xattr::XattrData;

verus! {

/// The attributes of an inode are what its inode holds: its number, all
/// twelve permission bits with set-uid, set-gid and sticky among them, its
/// size, time, links and device number, and the ids that its indices stand
/// for.
pub proof fn attributes_are_those_of_the_inode(m: Mount, d: InodeData)
    requires
        d.uid_idx < m.ids.len(),
        d.gid_idx < m.ids.len(),
    ensures
        crate::capi::attr_of(m, d) matches Ok(a) && {
            &&& a.inode == d.inode_number
            &&& a.mode == d.permissions % 0o10000
            &&& d.permissions < 0o10000 ==> a.mode == d.permissions
            &&& a.uid == m.ids[d.uid_idx as int]
            &&& a.gid == m.ids[d.gid_idx as int]
            &&& a.size == d.file_size
            &&& a.mtime == d.mtime
            &&& a.link_count == d.nlink
            &&& a.file_type == crate::inode::type_of(d.inode_type).abi_code()
            &&& a.rdev == d.rdev
        },
{
    let p = d.permissions;
    assert(p & 0o7777 == p % 0o10000) by (bit_vector);
}

/// An index past the table of ids is an error, never an id.
pub proof fn missing_ids_are_errors(m: Mount, d: InodeData)
    requires
        d.uid_idx >= m.ids.len() || d.gid_idx >= m.ids.len(),
    ensures
        crate::capi::attr_of(m, d) matches Err(Error::BadInode(_)),
{
}

/// What a path or a number leads to is what is reported of it; what leads
/// nowhere is reported as that failure.
pub proof fn stat_reports_what_was_found(m: Mount, found: Result<InodeData>)
    ensures
        found matches Ok(d) ==> (match crate::capi::attr_of(m, d) {
            Ok(a) => crate::capi::stat_of(m, found) == Ok::<fs_squashfs_attr_t, AbiError>(a),
            Err(e) => crate::capi::stat_of(m, found) == Err::<fs_squashfs_attr_t, AbiError>(
                AbiError::Fs(e),
            ),
        }),
        found matches Err(e) ==> crate::capi::stat_of(m, found) == Err::<
            fs_squashfs_attr_t,
            AbiError,
        >(AbiError::Fs(e)),
{
}

/// An inode with an attribute set has exactly the attributes of that set,
/// whatever kind of file it is; without one, or in an image without sets, it
/// has none.
pub proof fn attributes_are_those_of_the_set(image: Seq<u8>, m: Mount, d: InodeData)
    ensures
        m.xattrs matches Some(t) && d.xattr_index != 0xFFFF_FFFF ==> crate::fs::attributes(
            image,
            m,
            d,
        ) == crate::xattr::set_at(image, m.sb.compression_id, m.xattrs->0, d.xattr_index),
        d.xattr_index == 0xFFFF_FFFF || m.xattrs is None ==> crate::fs::attributes(image, m, d)
            == Ok::<Seq<XattrData>, Error>(Seq::empty()),
{
}

/// Two inodes that share a set have the same attributes, whatever else they
/// are.
pub proof fn shared_sets_are_the_same(image: Seq<u8>, m: Mount, a: InodeData, b: InodeData)
    requires
        a.xattr_index == b.xattr_index,
    ensures
        crate::fs::attributes(image, m, a) == crate::fs::attributes(image, m, b),
{
}

/// A directory record holds the number, the kind and the name of its entry:
/// all of a name of up to 256 bytes, and a zero byte behind it.
pub proof fn records_are_those_of_the_entry(r: fs_squashfs_dirent_t, e: EntryData)
    requires
        crate::capi::is_dirent(r, e),
    ensures
        r.inode == e.inode_number,
        r.file_type == crate::inode::type_of(e.type_id).abi_code(),
        e.name.len() <= 256 ==> r.name_len == e.name.len(),
        e.name.len() > 256 ==> r.name_len == 256,
        forall|k: int| 0 <= k < r.name_len ==> #[trigger] r.name@[k] == e.name[k],
        forall|k: int| r.name_len <= k < 257 ==> #[trigger] r.name@[k] == 0,
        r.name@.len() == 257,
{
}

/// What a path leads to decides what can be done with it: a directory is
/// listed, a regular file is read, and a symlink has its target told, with a
/// zero byte behind it, where the buffer holds both.
pub proof fn paths_are_opened_for_what_they_are(
    image: Seq<u8>,
    m: Mount,
    path: Seq<u8>,
    d: InodeData,
    bufsize: nat,
)
    requires
        crate::fs::resolved(image, m.sb, path) == Ok::<InodeData, Error>(d),
    ensures
        ({
            let t = d.inode_type;
            let dir = crate::capi::opened_dir(image, m, path);
            let file = crate::capi::opened_file(image, m, path);
            let link = crate::capi::link_read(image, m, path, bufsize);
            let entries = crate::fs::dir_entries(image, m.sb, d);
            &&& t == 1 || t == 8 ==> {
                &&& entries is Ok ==> dir == Ok::<Seq<EntryData>, AbiError>(entries->Ok_0)
                &&& entries is Err ==> dir == Err::<Seq<EntryData>, AbiError>(
                    AbiError::Listing(entries->Err_0),
                )
            }
            &&& t != 1 && t != 8 ==> dir == Err::<Seq<EntryData>, AbiError>(
                AbiError::NotADirectory,
            )
            &&& t == 2 || t == 9 ==> file == Ok::<InodeData, AbiError>(d)
            &&& t != 2 && t != 9 ==> file == Err::<InodeData, AbiError>(
                AbiError::NotARegularFile,
            )
            &&& (t == 3 || t == 10) && d.symlink_target.len() < bufsize ==> link == Ok::<
                Seq<u8>,
                AbiError,
            >(d.symlink_target + seq![0u8])
            &&& (t == 3 || t == 10) && d.symlink_target.len() >= bufsize ==> link == Err::<
                Seq<u8>,
                AbiError,
            >(AbiError::BufferTooSmall)
            &&& t != 3 && t != 10 ==> link == Err::<Seq<u8>, AbiError>(AbiError::NotASymlink)
        }),
{
    assert(d.symlink_target + seq![0u8] =~= d.symlink_target.push(0));
}

/// What a path does not lead to is not opened, for the reason that it does
/// not.
pub proof fn lost_paths_are_not_opened(
    image: Seq<u8>,
    m: Mount,
    path: Seq<u8>,
    e: Error,
    bufsize: nat,
    name: Seq<u8>,
)
    requires
        crate::fs::resolved(image, m.sb, path) == Err::<InodeData, Error>(e),
    ensures
        crate::capi::opened_dir(image, m, path) == Err::<Seq<EntryData>, AbiError>(AbiError::Fs(e)),
        crate::capi::opened_file(image, m, path) == Err::<InodeData, AbiError>(AbiError::Fs(e)),
        crate::capi::link_read(image, m, path, bufsize) == Err::<Seq<u8>, AbiError>(
            AbiError::Fs(e),
        ),
        crate::capi::listed(image, m, path) == Err::<Seq<XattrData>, AbiError>(AbiError::Fs(e)),
        crate::capi::attribute_at(image, m, path, name) == Err::<Seq<u8>, AbiError>(
            AbiError::Fs(e),
        ),
{
}

/// A buffer is asked for that holds what a read can give: what was asked for,
/// or the file where that is less.
pub proof fn reads_are_clamped_to_the_file(length: u64, file_size: u64)
    requires
        length <= usize::MAX || file_size <= usize::MAX,
    ensures
        length <= file_size ==> crate::capi::clamped(length, file_size) == length,
        length >= file_size ==> crate::capi::clamped(length, file_size) == file_size,
{
}

/// The attributes at a path are those of the inode it leads to, and one of
/// them is found by its name: the value of the first of that name, or no
/// attribute.
pub proof fn paths_have_the_attributes_of_their_inode(
    image: Seq<u8>,
    m: Mount,
    path: Seq<u8>,
    d: InodeData,
    set: Seq<XattrData>,
    name: Seq<u8>,
)
    requires
        crate::fs::resolved(image, m.sb, path) == Ok::<InodeData, Error>(d),
        crate::fs::attributes(image, m, d) == Ok::<Seq<XattrData>, Error>(set),
    ensures
        crate::capi::listed(image, m, path) == Ok::<Seq<XattrData>, AbiError>(set),
        forall|i: int|
            0 <= i < set.len() && (#[trigger] set[i]).name == name && (forall|k: int|
                0 <= k < i ==> (#[trigger] set[k]).name != name) ==> crate::capi::attribute_at(
                image,
                m,
                path,
                name,
            ) == Ok::<Seq<u8>, AbiError>(set[i].value),
        (forall|k: int| 0 <= k < set.len() ==> (#[trigger] set[k]).name != name)
            ==> crate::capi::attribute_at(image, m, path, name) == Err::<Seq<u8>, AbiError>(
            AbiError::NoAttribute,
        ),
{
    crate::fs::attribute_is_the_first_of_its_name(set, name);
    assert forall|i: int|
        0 <= i < set.len() && (#[trigger] set[i]).name == name && (forall|k: int|
            0 <= k < i ==> (#[trigger] set[k]).name != name) implies crate::fs::attribute(set, name)
        == Some(set[i].value) by {
        if let Some(value) = crate::fs::attribute(set, name) {
            let j = choose|j: int|
                0 <= j < set.len() && #[trigger] set[j].name == name && set[j].value == value
                    && forall|k: int| 0 <= k < j ==> #[trigger] set[k].name != name;
            if j < i {
                assert(set[j].name != name);
            }
            if i < j {
                assert(set[i].name != name);
            }
        }
    }
}

/// The names of a set are listed one behind the other, each with a zero byte
/// behind it.
pub proof fn names_are_listed_in_order(a: Seq<XattrData>, x: XattrData, b: Seq<XattrData>)
    ensures
        crate::capi::name_list(Seq::<XattrData>::empty()) == Seq::<u8>::empty(),
        crate::capi::name_list(seq![x]) == x.name + seq![0u8],
        crate::capi::name_list(a + b) == crate::capi::name_list(a) + crate::capi::name_list(b),
    decreases a.len(),
{
    let one = seq![x];
    assert(one.drop_first() =~= Seq::empty());
    assert(crate::capi::name_list(one.drop_first()) =~= Seq::empty());
    assert(crate::capi::name_list(one) =~= x.name + seq![0u8]);
    if a.len() == 0 {
        assert(a + b =~= b);
        assert(crate::capi::name_list(a) + crate::capi::name_list(b) =~= crate::capi::name_list(b));
    } else {
        names_are_listed_in_order(a.drop_first(), x, b);
        assert((a + b).drop_first() =~= a.drop_first() + b);
        assert((a + b)[0] == a[0]);
        assert(crate::capi::name_list(a + b) =~= crate::capi::name_list(a)
            + crate::capi::name_list(b));
    }
}

/// A buffer takes the names of the first attributes, whole, as many of them
/// as fit: one more would not.
pub proof fn buffers_take_as_many_names_as_fit(set: Seq<XattrData>, room: nat) -> (k: nat)
    ensures
        k <= set.len(),
        crate::capi::names_within(set, room) == crate::capi::name_list(set.take(k as int)),
        crate::capi::name_list(set.take(k as int)).len() <= room,
        k < set.len() ==> crate::capi::name_list(set.take((k + 1) as int)).len() > room,
    decreases set.len(),
{
    if set.len() == 0 {
        assert(set.take(0) =~= Seq::empty());
        0
    } else if set[0].name.len() + 1 > room {
        assert(set.take(0) =~= Seq::<XattrData>::empty());
        assert(set.take(1).drop_first() =~= Seq::<XattrData>::empty());
        assert(set.take(1)[0] == set[0]);
        assert(crate::capi::name_list(set.take(0)) =~= Seq::<u8>::empty());
        0
    } else {
        let rest = set.drop_first();
        let left = (room - set[0].name.len() - 1) as nat;
        let k = buffers_take_as_many_names_as_fit(rest, left);
        assert(set.take((k + 1) as int).drop_first() =~= rest.take(k as int));
        assert(set.take((k + 1) as int)[0] == set[0]);
        if k < rest.len() {
            assert(set.take((k + 2) as int).drop_first() =~= rest.take((k + 1) as int));
            assert(set.take((k + 2) as int)[0] == set[0]);
        }
        k + 1
    }
}

/// What is told of a volume is what its superblock holds, and the name of its
/// compressor with zero bytes behind it.
pub proof fn volumes_are_told_of_as_they_are(info: fs_squashfs_volume_info_t, m: Mount)
    requires
        crate::capi::is_info_of(info, m),
    ensures
        info.block_size == m.sb.block_size,
        info.compression_id == m.sb.compression_id,
        info.inode_count == m.sb.inode_count,
        info.fragment_count == m.sb.fragment_entry_count,
        info.id_count == m.sb.id_count,
        info.bytes_used == m.sb.bytes_used,
        info.mkfs_time == m.sb.modification_time,
        info.version_major == m.sb.version_major,
        info.version_minor == m.sb.version_minor,
        info.flags == m.sb.flags,
        ({
            let name = m.comp.text();
            &&& name.len() < 16
            &&& forall|k: int|
                0 <= k < name.len() ==> (#[trigger] info.compression_name@[k]) as char == name[k]
            &&& forall|k: int|
                name.len() <= k < 16 ==> (#[trigger] info.compression_name@[k]) == 0
        }),
{
    reveal_strlit("gzip");
    reveal_strlit("lzma");
    reveal_strlit("lzo");
    reveal_strlit("xz");
    reveal_strlit("lz4");
    reveal_strlit("zstd");
}

/// Every failure has its own number, that of POSIX for what it is: no such
/// entry, not a directory, an invalid argument, a range, an operation that is
/// not supported, or else an input/output error.
pub proof fn failures_have_their_numbers(e: Error, a: AbiError)
    ensures
        e.errno() == 2 <==> e is NotFound,
        e.errno() == 20 <==> e is NotADirectory,
        e.errno() == 22 <==> e is NotSquashfs || e is BadSuperblock,
        e.errno() == 34 <==> e is OutOfRange,
        e.errno() == 45 <==> e is NotExportable || e is UnsupportedCompression,
        e.errno() == 5 <==> e is Block || e is BadMetadata || e is BadInode || e is BadDirent,
        a.errno() == (match a {
            AbiError::Fs(x) => x.errno(),
            AbiError::Listing(x) => x.errno(),
            AbiError::NotADirectory => 20,
            AbiError::NotARegularFile => 22,
            AbiError::NotASymlink => 22,
            AbiError::BufferTooSmall => 34,
            AbiError::NoAttribute => 2,
        }),
{
}

/// An inode number is resolved by the export table, where there is one.
pub proof fn numbers_are_resolved_by_the_table(image: Seq<u8>, m: Mount, number: u32)
    ensures
        m.exports is None ==> crate::fs::numbered(image, m, number) == Err::<u64, Error>(
            Error::NotExportable,
        ),
        m.exports is Some ==> crate::fs::numbered(image, m, number) == crate::table::exported(
            image,
            m.sb.compression_id,
            m.exports->0,
            number,
        ),
{
}

/// A cache under a mount is made of as many blocks as asked for, of the
/// image's own block size; of none where none is asked for.
pub proof fn device_caches_have_the_size_asked_for(
    image: Seq<u8>,
    sb: crate::superblock::Superblock,
    blocks: usize,
)
    requires
        crate::superblock::superblock_of(image) == Ok::<crate::superblock::Superblock, Error>(sb),
    ensures
        blocks > 0 ==> crate::fs::device_cache_of(image, blocks) == Ok::<
            Option<(u64, usize)>,
            Error,
        >(Some((sb.block_size as u64, blocks))),
        blocks == 0 ==> crate::fs::device_cache_of(image, blocks) == Ok::<
            Option<(u64, usize)>,
            Error,
        >(None),
{
}

/// A dependable device serves exactly the bytes it has, and says how many
/// there are of those it has not.
pub proof fn devices_serve_their_bytes(image: Seq<u8>, offset: nat, len: nat)
    ensures
        offset + len <= image.len() ==> (crate::device::served(image, offset, len) matches Ok(b)
            && b.len() == len && forall|k: int|
            0 <= k < len ==> #[trigger] b[k] == image[offset + k]),
        offset + len > image.len() && image.len() <= usize::MAX && len <= usize::MAX && offset
            <= u64::MAX ==> (crate::device::served(image, offset, len) matches Err(
            crate::error::BlockError::ShortRead { offset: o, want, got },
        ) && o == offset && want == len && got == (if offset < image.len() {
            image.len() - offset
        } else {
            0
        })),
{
}

/// The data of files is read by the mount's own compressor, block size and
/// fragment table.
pub proof fn volumes_are_of_their_mount(m: Mount)
    ensures
        m.volume().comp == m.comp,
        m.volume().block_size == m.sb.block_size,
        m.volume().fragments == m.fragments,
{
}

/// What is returned is what the image calls for; but where the device may fail
/// to serve bytes that it has, that failure may come in its place, and nothing
/// else may.
pub proof fn outcomes_are_what_the_image_calls_for<T>(
    dependable: bool,
    got: Result<T>,
    want: Result<T>,
)
    ensures
        crate::error::outcome(dependable, got, want) <==> got == want || !dependable && (got
            matches Err(e) && e is Block),
        crate::error::settled(dependable, got) <==> dependable || !(got matches Err(e) && e is Block),
{
}

/// The same holds of what the entry points return.
pub proof fn entry_points_return_what_the_image_calls_for<T>(
    dependable: bool,
    got: core::result::Result<T, AbiError>,
    want: core::result::Result<T, AbiError>,
)
    ensures
        dependable ==> (crate::capi::abi_outcome(dependable, got, want) <==> got == want),
        got is Ok ==> (crate::capi::abi_outcome(dependable, got, want) <==> got == want),
        crate::capi::abi_outcome(dependable, got, want) && got != want ==> (got matches Err(e)
            && e.errno() == 5 && (e matches AbiError::Fs(Error::Block(_)) || e matches
            AbiError::Listing(Error::Block(_)))),
        dependable || got is Ok ==> crate::capi::abi_settled(dependable, got),
        got matches Err(e) && !(e matches AbiError::Fs(Error::Block(_))) && !(e matches
            AbiError::Listing(Error::Block(_))) ==> crate::capi::abi_settled(dependable, got),
{
}

/// The same holds of blocks, of inodes and of attributes, by what they hold.
pub proof fn parts_are_what_the_image_calls_for(
    dependable: bool,
    block: Result<(Seq<u8>, u64)>,
    want_block: Result<(Seq<u8>, nat)>,
    inode: Result<crate::inode::Inode>,
    want_inode: Result<InodeData>,
    set: Result<Vec<crate::xattr::XattrEntry>>,
    want_set: Result<Seq<XattrData>>,
)
    ensures
        crate::metablock::block_outcome(dependable, block, want_block) ==> match block {
            Ok((bytes, next)) => want_block matches Ok((b, n)) && b == bytes && n == next,
            Err(e) => want_block == Err::<(Seq<u8>, nat), Error>(e) || !dependable && e is Block,
        },
        crate::inode::inode_outcome(dependable, inode, want_inode) ==> match inode {
            Ok(i) => want_inode == Ok::<InodeData, Error>(i@),
            Err(e) => want_inode == Err::<InodeData, Error>(e) || !dependable && e is Block,
        },
        crate::xattr::set_outcome(dependable, set, want_set) ==> match set {
            Ok(v) => want_set matches Ok(w) && w.len() == v.len() && forall|i: int|
                0 <= i < v.len() ==> #[trigger] w[i] == v@[i]@,
            Err(e) => want_set == Err::<Seq<XattrData>, Error>(e) || !dependable && e is Block,
        },
{
}

/// Inodes, entries and attributes are seen as their fields are.
pub proof fn values_are_seen_as_they_are(
    i: crate::inode::Inode,
    e: crate::dir::DirEntry,
    x: crate::xattr::XattrEntry,
    entries: Seq<crate::dir::DirEntry>,
)
    ensures
        i@.inode_type == i.inode_type,
        i@.permissions == i.permissions,
        i@.uid_idx == i.uid_idx,
        i@.gid_idx == i.gid_idx,
        i@.mtime == i.mtime,
        i@.inode_number == i.inode_number,
        i@.nlink == i.nlink,
        i@.file_size == i.file_size,
        i@.rdev == i.rdev,
        i@.xattr_index == i.xattr_index,
        i@.dir_start_block == i.dir_start_block,
        i@.dir_block_offset == i.dir_block_offset,
        i@.blocks_start == i.blocks_start,
        i@.fragment_index == i.fragment_index,
        i@.fragment_offset == i.fragment_offset,
        i@.block_sizes == i.block_sizes@,
        i@.symlink_target == i.symlink_target@,
        e@.name == e.name@,
        e@.inode_ref == e.inode_ref,
        e@.type_id == e.type_id,
        e@.inode_number == e.inode_number,
        x@.name == x.name@,
        x@.value == x.value@,
        crate::dir::entry_data(entries).len() == entries.len(),
        forall|k: int|
            0 <= k < entries.len() ==> #[trigger] crate::dir::entry_data(entries)[k] == entries[k]@,
{
}

/// The device is asked only where there is something to read: a listing, a
/// set of attributes, an entry of the export table, a block of a file.
pub proof fn devices_are_asked_for_a_reason(
    m: Mount,
    d: InodeData,
    number: u32,
    i: nat,
)
    ensures
        crate::fs::dir_is_read(d) ==> (d.inode_type == 1 || d.inode_type == 8) && d.file_size > 3,
        crate::fs::attributes_are_read(m, d) ==> d.xattr_index != 0xFFFF_FFFF && (m.xattrs matches
            Some(t) && d.xattr_index < t.ids.len() && t.ids[d.xattr_index as int].count <= 16384),
        crate::fs::number_is_read(m, number) ==> (m.exports matches Some(t) && 1 <= number
            <= t.inode_count && (number - 1) / 1024 < t.block_starts.len()),
        crate::data::logical_block_is_read(m.volume(), d, i) && i < d.block_sizes.len() ==> 0
            < d.block_sizes[i as int] % 0x100_0000 <= m.sb.block_size,
        crate::data::logical_block_is_read(m.volume(), d, i) && i >= d.block_sizes.len() ==> (
        d.inode_type == 2 || d.inode_type == 9) && d.fragment_index < m.fragments.len()
            && d.fragment_index != 0xFFFF_FFFF,
{
}

/// The number that digits stand for.
pub open spec fn told(digits: Seq<char>) -> int
    decreases digits.len(),
{
    if digits.len() == 0 {
        0
    } else {
        10 * told(digits.drop_last()) + (digits.last() as int - '0' as int)
    }
}

/// Numbers are told in decimal digits, and without a zero that is not needed.
pub proof fn numbers_are_told_in_decimal(n: nat)
    ensures
        told(crate::error::decimal_text(n)) == n,
        crate::error::decimal_text(n).len() > 0,
        forall|i: int|
            0 <= i < crate::error::decimal_text(n).len() ==> '0' <= #[trigger] (
            crate::error::decimal_text(n)[i]) <= '9',
        n >= 10 ==> crate::error::decimal_text(n)[0] != '0',
        n > 0 ==> crate::error::decimal_text(n)[0] != '0',
    decreases n,
{
    reveal_strlit("0");
    reveal_strlit("1");
    reveal_strlit("2");
    reveal_strlit("3");
    reveal_strlit("4");
    reveal_strlit("5");
    reveal_strlit("6");
    reveal_strlit("7");
    reveal_strlit("8");
    reveal_strlit("9");
    let text = crate::error::decimal_text(n);
    let last = crate::error::digit_text((n % 10) as int);
    assert(last.len() == 1 && last[0] as int == '0' as int + n % 10);
    if n < 10 {
        assert(text.drop_last() =~= Seq::empty());
        assert(told(text.drop_last()) == 0);
    } else {
        numbers_are_told_in_decimal(n / 10);
        let head = crate::error::decimal_text(n / 10);
        assert(text.drop_last() =~= head);
        assert(text.last() == last[0]);
        assert forall|i: int| 0 <= i < text.len() implies '0' <= #[trigger] text[i] <= '9' by {
            if i < head.len() {
                assert(text[i] == head[i]);
            }
        }
    }
}

/// A message about what is malformed ends in what is wrong with it.
pub proof fn messages_end_in_their_cause(e: Error, cause: &'static str)
    requires
        e == Error::BadSuperblock(cause) || e == Error::BadMetadata(cause) || e == Error::BadInode(
            cause,
        ) || e == Error::BadDirent(cause),
    ensures
        e.text().len() > cause@.len(),
        e.text().skip(e.text().len() - cause@.len()) == cause@,
        forall|other: Error|
            #[trigger] other.text() == e.text() && (other == Error::BadSuperblock(cause) || other
                == Error::BadMetadata(cause) || other == Error::BadInode(cause) || other
                == Error::BadDirent(cause)) ==> other == e,
{
    reveal_strlit("malformed superblock: ");
    reveal_strlit("malformed metadata block: ");
    reveal_strlit("malformed inode: ");
    reveal_strlit("malformed directory: ");
    assert(e.text().skip(e.text().len() - cause@.len()) =~= cause@);
}

/// A failure of the device stays that failure.
pub proof fn failures_of_the_device_are_kept(e: crate::error::BlockError)
    ensures
        <Error as vstd::std_specs::convert::FromSpec<crate::error::BlockError>>::from_spec(e)
            == Error::Block(e),
        <Error as vstd::std_specs::convert::FromSpec<crate::error::BlockError>>::obeys_from_spec(),
{
}

/// A part of a stream is what the image calls for, and the stream goes on
/// right behind it.
pub proof fn parts_of_streams_are_what_the_image_calls_for<T>(
    dependable: bool,
    got: Result<T>,
    after: crate::metablock::Stream,
    want: Result<(T, crate::metablock::Stream)>,
)
    requires
        crate::xattr::part_outcome(dependable, got, after, want),
    ensures
        got matches Ok(v) ==> (want matches Ok((w, s)) && w == v && s == after),
        dependable ==> (got matches Err(e) ==> (want matches Err(x) && x == e)),
        got matches Err(e) ==> (!(e is Block) ==> (want matches Err(x) && x == e)),
{
}

/// Reading metadata changes nothing of a mount but what its cache of metadata
/// blocks holds and has counted, and reading data nothing but the same of the
/// cache of data blocks: not the image, not the tables, not the size of a
/// cache.
pub proof fn reading_changes_caches_alone<D: crate::device::BlockRead>(
    after: &crate::fs::Filesystem<D>,
    before: &crate::fs::Filesystem<D>,
)
    ensures
        after.same_but_metadata(before) <==> {
            &&& after.wf()
            &&& after@ == before@
            &&& after.image() == before.image()
            &&& after.dependable() == before.dependable()
            &&& after.data_cache_state() == before.data_cache_state()
            &&& after.meta_cache_state().capacity == before.meta_cache_state().capacity
        },
        after.same_but_data(before) <==> {
            &&& after.wf()
            &&& after@ == before@
            &&& after.image() == before.image()
            &&& after.dependable() == before.dependable()
            &&& after.meta_cache_state() == before.meta_cache_state()
            &&& after.data_cache_state().capacity == before.data_cache_state().capacity
        },
{
}

/// A read of a file asks the device only where it is one of a regular file,
/// before its end, and of a block there that has bytes on disk.
pub proof fn files_are_read_for_a_reason(
    vol: crate::data::Volume,
    d: InodeData,
    offset: nat,
    wanted: nat,
)
    requires
        vol.block_size > 0,
        crate::data::file_is_read(vol, d, offset, wanted),
    ensures
        d.inode_type == 2 || d.inode_type == 9,
        offset < d.file_size,
        wanted > 0,
        exists|i: nat|
            offset / vol.block_size as nat <= i && i * vol.block_size < offset + wanted && i
                * vol.block_size < d.file_size && #[trigger] crate::data::logical_block_is_read(
                vol,
                d,
                i,
            ),
{
    let bs = vol.block_size as nat;
    let n = crate::data::read_len(d.file_size as nat, offset, wanted);
    let i = choose|i: nat|
        offset / bs <= i && i * bs < offset + n && #[trigger] crate::data::logical_block_is_read(
            vol,
            d,
            i,
        );
    assert(i * vol.block_size < offset + wanted);
}

} // verus!
