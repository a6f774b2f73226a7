//! Directory listings, as they are written.

use vstd::prelude::*;

use crate::dir::EntryData;
use crate::error::Error;
use crate::inode::InodeData;
use crate::metablock::Stream;
use crate::superblock::Superblock;
use super::numbers::{
    lemma_stands_apart, number16_is_read_back, number32_is_read_back,
    signed_number_is_read_back,
};

verus! {

broadcast use {
    super::numbers::lemma_len16,
    super::numbers::lemma_len32,
    super::numbers::lemma_len64,
};

/// One name of a directory, as a writer has it: where its inode stands in the
/// block of its group, how far its inode number is from that of the group,
/// its type and its name.
pub struct Record {
    pub offset: u16,
    pub delta: i16,
    pub type_id: u16,
    pub name: Seq<u8>,
}

/// Names whose inodes stand in one block, under one header.
pub struct Group {
    pub start: u32,
    pub base: u32,
    pub records: Seq<Record>,
}

/// Whether a writer may write the record: its name has 1 to 256 bytes, of any
/// kind.
pub open spec fn is_record(r: Record) -> bool {
    1 <= r.name.len() <= 256
}

/// Whether a writer may write the group: 1 to 256 records.
pub open spec fn is_group(g: Group) -> bool {
    &&& 1 <= g.records.len() <= 256
    &&& forall|i: int| 0 <= i < g.records.len() ==> is_record(#[trigger] g.records[i])
}

/// The entry that a record of a group stands for.
pub open spec fn entry_of(start: u32, base: u32, r: Record) -> EntryData {
    EntryData {
        name: r.name,
        inode_ref: (start * 0x1_0000 + r.offset) as u64,
        type_id: r.type_id,
        inode_number: ((base + r.delta) % 0x1_0000_0000) as u32,
    }
}

/// The bytes of a record.
pub open spec fn record_bytes(r: Record) -> Seq<u8> {
    super::numbers::bytes16(r.offset) + (super::numbers::bytes16(
        super::numbers::unsigned16(r.delta),
    ) + (super::numbers::bytes16(r.type_id) + (super::numbers::bytes16(
        (r.name.len() - 1) as u16,
    ) + r.name)))
}

/// The bytes of records, one behind the other.
pub open spec fn records_bytes(rs: Seq<Record>) -> Seq<u8>
    decreases rs.len(),
{
    if rs.len() == 0 {
        Seq::empty()
    } else {
        record_bytes(rs[0]) + records_bytes(rs.drop_first())
    }
}

/// The entries that records stand for.
pub open spec fn entries_of(start: u32, base: u32, rs: Seq<Record>) -> Seq<EntryData> {
    Seq::new(rs.len(), |i: int| entry_of(start, base, rs[i]))
}

/// The bytes of a group: its header and its records.
pub open spec fn group_bytes(g: Group) -> Seq<u8> {
    super::numbers::bytes32((g.records.len() - 1) as u32) + (super::numbers::bytes32(g.start) + (
    super::numbers::bytes32(g.base) + records_bytes(g.records)))
}

/// The bytes of a listing.
pub open spec fn listing_bytes(groups: Seq<Group>) -> Seq<u8>
    decreases groups.len(),
{
    if groups.len() == 0 {
        Seq::empty()
    } else {
        group_bytes(groups[0]) + listing_bytes(groups.drop_first())
    }
}

/// All the entries of a listing, in the order in which they are written.
pub open spec fn all_entries(groups: Seq<Group>) -> Seq<EntryData>
    decreases groups.len(),
{
    if groups.len() == 0 {
        Seq::empty()
    } else {
        entries_of(groups[0].start, groups[0].base, groups[0].records) + all_entries(
            groups.drop_first(),
        )
    }
}

proof fn lemma_record(buf: Seq<u8>, p: int, start: u32, base: u32, r: Record)
    requires
        0 <= p,
        is_record(r),
        super::numbers::stands(buf, p, record_bytes(r)),
    ensures
        crate::dir::entry_at(buf, p, start, base) == Ok::<(EntryData, int), Error>(
            (entry_of(start, base, r), p + record_bytes(r).len()),
        ),
{
    let delta = super::numbers::unsigned16(r.delta);
    let len = (r.name.len() - 1) as u16;
    let t4 = super::numbers::bytes16(len) + r.name;
    let t3 = super::numbers::bytes16(r.type_id) + t4;
    let t2 = super::numbers::bytes16(delta) + t3;
    lemma_stands_apart(buf, p, super::numbers::bytes16(r.offset), t2);
    lemma_stands_apart(buf, p + 2, super::numbers::bytes16(delta), t3);
    lemma_stands_apart(buf, p + 4, super::numbers::bytes16(r.type_id), t4);
    lemma_stands_apart(buf, p + 6, super::numbers::bytes16(len), r.name);
    reveal(super::numbers::holds16);
    number16_is_read_back(buf, p, r.offset);
    number16_is_read_back(buf, p + 2, delta);
    number16_is_read_back(buf, p + 4, r.type_id);
    number16_is_read_back(buf, p + 6, len);
    signed_number_is_read_back(r.delta);
}

proof fn lemma_records(buf: Seq<u8>, p: int, start: u32, base: u32, rs: Seq<Record>)
    requires
        0 <= p,
        forall|i: int| 0 <= i < rs.len() ==> is_record(#[trigger] rs[i]),
        super::numbers::stands(buf, p, records_bytes(rs)),
    ensures
        crate::dir::entries_at(buf, p, start, base, rs.len()) == Ok::<(Seq<EntryData>, int), Error>(
            (entries_of(start, base, rs), p + records_bytes(rs).len()),
        ),
    decreases rs.len(),
{
    if rs.len() == 0 {
        assert(entries_of(start, base, rs) =~= Seq::empty());
    } else {
        let rest = rs.drop_first();
        lemma_stands_apart(buf, p, record_bytes(rs[0]), records_bytes(rest));
        assert(is_record(rs[0]));
        lemma_record(buf, p, start, base, rs[0]);
        assert forall|i: int| 0 <= i < rest.len() implies is_record(#[trigger] rest[i]) by {
            assert(rest[i] == rs[i + 1]);
        }
        lemma_records(buf, p + record_bytes(rs[0]).len(), start, base, rest);
        assert(seq![entry_of(start, base, rs[0])] + entries_of(start, base, rest) =~= entries_of(
            start,
            base,
            rs,
        ));
    }
}

proof fn lemma_listing(buf: Seq<u8>, p: int, groups: Seq<Group>)
    requires
        0 <= p,
        forall|i: int| 0 <= i < groups.len() ==> is_group(#[trigger] groups[i]),
        super::numbers::stands(buf, p, listing_bytes(groups)),
        p + listing_bytes(groups).len() == buf.len(),
    ensures
        crate::dir::listing_from(buf, p) == Ok::<Seq<EntryData>, Error>(all_entries(groups)),
    decreases groups.len(),
{
    if groups.len() > 0 {
        let g = groups[0];
        let rest = groups.drop_first();
        assert(is_group(g));
        let count = (g.records.len() - 1) as u32;
        let t2 = super::numbers::bytes32(g.base) + records_bytes(g.records);
        let t1 = super::numbers::bytes32(g.start) + t2;
        lemma_stands_apart(buf, p, group_bytes(g), listing_bytes(rest));
        lemma_stands_apart(buf, p, super::numbers::bytes32(count), t1);
        lemma_stands_apart(buf, p + 4, super::numbers::bytes32(g.start), t2);
        lemma_stands_apart(buf, p + 8, super::numbers::bytes32(g.base), records_bytes(g.records));
        reveal(super::numbers::holds32);
        number32_is_read_back(buf, p, count);
        number32_is_read_back(buf, p + 4, g.start);
        number32_is_read_back(buf, p + 8, g.base);
        lemma_records(buf, p + 12, g.start, g.base, g.records);
        assert forall|i: int| 0 <= i < rest.len() implies is_group(#[trigger] rest[i]) by {
            assert(rest[i] == groups[i + 1]);
        }
        lemma_listing(buf, p + group_bytes(g).len(), rest);
    }
}

/// A listing that was written is read back whole: every name that was put in,
/// whatever it is, in its order, with its reference, type and inode number.
pub proof fn listing_is_read_back(groups: Seq<Group>)
    requires
        forall|i: int| 0 <= i < groups.len() ==> is_group(#[trigger] groups[i]),
    ensures
        crate::dir::listing(listing_bytes(groups)) == Ok::<Seq<EntryData>, Error>(
            all_entries(groups),
        ),
{
    let buf = listing_bytes(groups);
    assert(buf.subrange(0, buf.len() as int) =~= buf);
    lemma_listing(buf, 0, groups);
}

proof fn lemma_record_back(
    buf: Seq<u8>,
    p: int,
    start: u32,
    base: u32,
    e: EntryData,
    next: int,
) -> (r: Record)
    requires
        0 <= p,
        crate::dir::entry_at(buf, p, start, base) == Ok::<(EntryData, int), Error>((e, next)),
    ensures
        is_record(r),
        super::numbers::stands(buf, p, record_bytes(r)),
        next == p + record_bytes(r).len(),
        e == entry_of(start, base, r),
{
    let len = crate::bytes::le16(buf, p + 6);
    let name = buf.subrange(p + 8, p + 9 + len);
    let delta = crate::bytes::signed16(crate::bytes::le16(buf, p + 2));
    let r = Record {
        offset: crate::bytes::le16(buf, p),
        delta,
        type_id: crate::bytes::le16(buf, p + 4),
        name,
    };
    assert(super::numbers::unsigned16(delta) == crate::bytes::le16(buf, p + 2));
    let t4 = super::numbers::bytes16(len) + r.name;
    let t3 = super::numbers::bytes16(r.type_id) + t4;
    let t2 = super::numbers::bytes16(super::numbers::unsigned16(delta)) + t3;
    reveal(super::numbers::holds16);
    number16_is_read_back(buf, p, r.offset);
    number16_is_read_back(buf, p + 2, super::numbers::unsigned16(delta));
    number16_is_read_back(buf, p + 4, r.type_id);
    number16_is_read_back(buf, p + 6, len);
    assert(super::numbers::stands(buf, p + 8, name));
    lemma_stands_apart(buf, p + 6, super::numbers::bytes16(len), r.name);
    lemma_stands_apart(buf, p + 4, super::numbers::bytes16(r.type_id), t4);
    lemma_stands_apart(
        buf,
        p + 2,
        super::numbers::bytes16(super::numbers::unsigned16(delta)),
        t3,
    );
    lemma_stands_apart(buf, p, super::numbers::bytes16(r.offset), t2);
    r
}

proof fn lemma_records_back(
    buf: Seq<u8>,
    p: int,
    start: u32,
    base: u32,
    n: nat,
    entries: Seq<EntryData>,
    end: int,
) -> (rs: Seq<Record>)
    requires
        0 <= p <= buf.len(),
        crate::dir::entries_at(buf, p, start, base, n) == Ok::<(Seq<EntryData>, int), Error>(
            (entries, end),
        ),
    ensures
        rs.len() == n,
        forall|i: int| 0 <= i < rs.len() ==> is_record(#[trigger] rs[i]),
        super::numbers::stands(buf, p, records_bytes(rs)),
        end == p + records_bytes(rs).len(),
        entries == entries_of(start, base, rs),
    decreases n,
{
    if n == 0 {
        assert(buf.subrange(p, p) =~= Seq::empty());
        assert(entries_of(start, base, Seq::empty()) =~= Seq::empty());
        Seq::empty()
    } else {
        let (e, next) = crate::dir::entry_at(buf, p, start, base)->Ok_0;
        let r = lemma_record_back(buf, p, start, base, e, next);
        let (more, stop) = crate::dir::entries_at(buf, next, start, base, (n - 1) as nat)->Ok_0;
        let rest = lemma_records_back(buf, next, start, base, (n - 1) as nat, more, stop);
        let rs = seq![r] + rest;
        assert(rs.drop_first() =~= rest);
        lemma_stands_apart(buf, p, record_bytes(r), records_bytes(rest));
        assert(entries =~= entries_of(start, base, rs));
        rs
    }
}

proof fn lemma_listing_back(buf: Seq<u8>, p: int, entries: Seq<EntryData>) -> (groups: Seq<Group>)
    requires
        0 <= p <= buf.len(),
        crate::dir::listing_from(buf, p) == Ok::<Seq<EntryData>, Error>(entries),
    ensures
        forall|i: int| 0 <= i < groups.len() ==> is_group(#[trigger] groups[i]),
        super::numbers::stands(buf, p, listing_bytes(groups)),
        p + listing_bytes(groups).len() == buf.len(),
        entries == all_entries(groups),
    decreases buf.len() - p,
{
    if p == buf.len() {
        assert(buf.subrange(p, p) =~= Seq::empty());
        Seq::empty()
    } else {
        let count = crate::bytes::le32(buf, p);
        let start = crate::bytes::le32(buf, p + 4);
        let base = crate::bytes::le32(buf, p + 8);
        let n = (count + 1) as nat;
        let (first, next) = crate::dir::entries_at(buf, p + 12, start, base, n)->Ok_0;
        let rs = lemma_records_back(buf, p + 12, start, base, n, first, next);
        let more = crate::dir::listing_from(buf, next)->Ok_0;
        let rest = lemma_listing_back(buf, next, more);
        let g = Group { start, base, records: rs };
        let groups = seq![g] + rest;
        assert(groups.drop_first() =~= rest);
        let t2 = super::numbers::bytes32(base) + records_bytes(rs);
        let t1 = super::numbers::bytes32(start) + t2;
        reveal(super::numbers::holds32);
        number32_is_read_back(buf, p, count);
        number32_is_read_back(buf, p + 4, start);
        number32_is_read_back(buf, p + 8, base);
        lemma_stands_apart(buf, p + 8, super::numbers::bytes32(base), records_bytes(rs));
        lemma_stands_apart(buf, p + 4, super::numbers::bytes32(start), t2);
        lemma_stands_apart(buf, p, super::numbers::bytes32(count), t1);
        lemma_stands_apart(buf, p, group_bytes(g), listing_bytes(rest));
        groups
    }
}

/// A listing that is read is one that could have been written: it is made of
/// groups of 1 to 256 records, each with a name of 1 to 256 bytes, and of
/// nothing else. All other bytes are refused.
pub proof fn other_listings_are_refused(buf: Seq<u8>, entries: Seq<EntryData>) -> (groups: Seq<
    Group,
>)
    requires
        crate::dir::listing(buf) == Ok::<Seq<EntryData>, Error>(entries),
    ensures
        forall|i: int| 0 <= i < groups.len() ==> is_group(#[trigger] groups[i]),
        buf == listing_bytes(groups),
        entries == all_entries(groups),
{
    let groups = lemma_listing_back(buf, 0, entries);
    assert(buf.subrange(0, buf.len() as int) =~= buf);
    groups
}

/// A directory whose listing stands in the directory table has every entry
/// that was put into the listing, and no other. The size of a directory
/// counts three bytes more than its listing has.
pub proof fn directory_is_read_back(
    image: Seq<u8>,
    sb: Superblock,
    d: InodeData,
    groups: Seq<Group>,
    s: Stream,
)
    requires
        d.inode_type == 1 || d.inode_type == 8,
        forall|i: int| 0 <= i < groups.len() ==> is_group(#[trigger] groups[i]),
        d.file_size == listing_bytes(groups).len() + 3,
        d.file_size <= u32::MAX,
        sb.directory_table_start + d.dir_start_block <= u64::MAX,
        groups.len() > 0 ==> crate::metablock::stream_at(
            image,
            sb.compression_id,
            (sb.directory_table_start + d.dir_start_block) as nat,
            d.dir_block_offset as nat,
        ) == Ok::<Stream, Error>(s) && (crate::metablock::stream_read(
            image,
            sb.compression_id,
            s,
            listing_bytes(groups).len(),
        ) matches Ok((bytes, _)) && bytes == listing_bytes(groups)),
    ensures
        crate::fs::dir_entries(image, sb, d) == Ok::<Seq<EntryData>, Error>(all_entries(groups)),
{
    listing_is_read_back(groups);
    if groups.len() > 0 {
        assert(listing_bytes(groups).len() > 0);
    }
}

/// A directory without a listing is empty, whatever the image holds; what is
/// no directory is not listed.
pub proof fn other_inodes_list_nothing(image: Seq<u8>, sb: Superblock, d: InodeData)
    ensures
        (d.inode_type == 1 || d.inode_type == 8) && d.file_size <= 3 ==> crate::fs::dir_entries(
            image,
            sb,
            d,
        ) == Ok::<Seq<EntryData>, Error>(Seq::empty()),
        d.inode_type != 1 && d.inode_type != 8 ==> crate::fs::dir_entries(image, sb, d) == Err::<
            Seq<EntryData>,
            Error,
        >(Error::NotADirectory),
{
}

/// Any name that is among the entries of a directory leads to the inode of
/// the first entry of that name; any other name is not found.
pub proof fn names_lead_to_their_inodes(
    image: Seq<u8>,
    sb: Superblock,
    d: InodeData,
    entries: Seq<EntryData>,
    name: Seq<u8>,
)
    requires
        crate::fs::dir_entries(image, sb, d) == Ok::<Seq<EntryData>, Error>(entries),
    ensures
        forall|i: int|
            0 <= i < entries.len() && (#[trigger] entries[i]).name == name && (forall|k: int|
                0 <= k < i ==> (#[trigger] entries[k]).name != name) ==> crate::fs::child(
                image,
                sb,
                d,
                name,
            ) == crate::inode::inode_at(image, sb, entries[i].inode_ref),
        (forall|k: int| 0 <= k < entries.len() ==> (#[trigger] entries[k]).name != name)
            ==> crate::fs::child(image, sb, d, name) == Err::<InodeData, Error>(Error::NotFound),
{
    crate::fs::child_is_the_first_of_its_name(image, sb, d, name);
    assert forall|i: int|
        0 <= i < entries.len() && (#[trigger] entries[i]).name == name && (forall|k: int|
            0 <= k < i ==> (#[trigger] entries[k]).name != name) implies crate::fs::child(
        image,
        sb,
        d,
        name,
    ) == crate::inode::inode_at(image, sb, entries[i].inode_ref) by {
        if exists|j: int|
            0 <= j < entries.len() && (#[trigger] entries[j]).name == name && crate::fs::child(
                image,
                sb,
                d,
                name,
            ) == crate::inode::inode_at(image, sb, entries[j].inode_ref) && forall|k: int|
                0 <= k < j ==> (#[trigger] entries[k]).name != name {
            let j = choose|j: int|
                0 <= j < entries.len() && (#[trigger] entries[j]).name == name && crate::fs::child(
                    image,
                    sb,
                    d,
                    name,
                ) == crate::inode::inode_at(image, sb, entries[j].inode_ref) && forall|k: int|
                    0 <= k < j ==> (#[trigger] entries[k]).name != name;
            if j < i {
                assert(entries[j].name != name);
            }
            if i < j {
                assert(entries[i].name != name);
            }
        }
    }
}

/// Walking goes from directory to directory by name, one name at a time;
/// without a name it stays where it is, and from anything but a directory it
/// goes nowhere.
pub proof fn walking_goes_by_names(
    image: Seq<u8>,
    sb: Superblock,
    d: InodeData,
    name: Seq<u8>,
    more: Seq<Seq<u8>>,
)
    ensures
        crate::fs::walked(image, sb, d, Seq::empty()) == Ok::<InodeData, Error>(d),
        d.inode_type != 1 && d.inode_type != 8 ==> crate::fs::walked(
            image,
            sb,
            d,
            seq![name] + more,
        ) == Err::<InodeData, Error>(Error::NotADirectory),
        d.inode_type == 1 || d.inode_type == 8 ==> crate::fs::walked(
            image,
            sb,
            d,
            seq![name] + more,
        ) == (match crate::fs::child(image, sb, d, name) {
            Err(e) => Err(e),
            Ok(next) => crate::fs::walked(image, sb, next, more),
        }),
{
    let names = seq![name] + more;
    assert(names[0] == name);
    assert(names.drop_first() =~= more);
}

/// A path that is written as names, each with a separator before it, leads
/// from the root inode along those names.
pub proof fn paths_start_at_the_root(
    image: Seq<u8>,
    sb: Superblock,
    root: InodeData,
    path: Seq<u8>,
    names: Seq<Seq<u8>>,
)
    requires
        crate::path::components(path) == names,
        crate::inode::inode_at(image, sb, sb.root_inode_ref) == Ok::<InodeData, Error>(root),
    ensures
        crate::fs::resolved(image, sb, path) == crate::fs::walked(image, sb, root, names),
{
}

} // verus!
