//! Directory listings.
//!
//! A listing is a sequence of headers, each followed by its entries.
//!
//! Header, 12 bytes: `u32` number of entries less one, `u32` offset of the
//! inode-table block that holds their inodes, `u32` base inode number.
//!
//! Entry, 8 bytes and a name: `u16` offset of the inode within that block,
//! `i16` difference to the base inode number, `u16` basic inode type, `u16`
//! length of the name less one, then the name.

use vstd::prelude::*;

use crate::bytes::{get_le16, get_le32, to_signed16};
use crate::error::{Error, Result};

verus! {

/// The longest name an entry can have.
pub const SQUASHFS_NAME_LEN: usize = 256;

/// The most entries that one header can describe.
pub const MAX_ENTRIES_PER_HEADER: u32 = 256;

/// One directory entry.
#[derive(Debug, Clone)]
pub struct DirEntry {
    pub name: Vec<u8>,
    /// Metadata reference to the inode.
    pub inode_ref: u64,
    /// The basic inode type.
    pub type_id: u16,
    pub inode_number: u32,
}

/// What a [`DirEntry`] holds.
#[verifier::ext_equal]
pub struct EntryData {
    pub name: Seq<u8>,
    pub inode_ref: u64,
    pub type_id: u16,
    pub inode_number: u32,
}

impl View for DirEntry {
    type V = EntryData;

    open spec fn view(&self) -> EntryData {
        EntryData {
            name: self.name@,
            inode_ref: self.inode_ref,
            type_id: self.type_id,
            inode_number: self.inode_number,
        }
    }
}

/// What a list of entries holds.
pub open spec fn entry_data(v: Seq<DirEntry>) -> Seq<EntryData> {
    Seq::new(v.len(), |i: int| v[i]@)
}

/// The inode number `delta` away from `base`, as 32 bits hold it.
pub open spec fn moved_by(base: u32, delta: i16) -> u32 {
    ((base + delta) % 0x1_0000_0000) as u32
}

fn moved(base: u32, delta: i16) -> (r: u32)
    ensures
        r == moved_by(base, delta),
{
    if delta >= 0 {
        base.wrapping_add(delta as u32)
    } else {
        base.wrapping_sub((-(delta as i32)) as u32)
    }
}

/// The entry at `p`, under a header that names the block offset `start` and
/// the base inode number `base`; and where it ends.
pub open spec fn entry_at(buf: Seq<u8>, p: int, start: u32, base: u32) -> Result<(EntryData, int)> {
    if p + 8 > buf.len() {
        Err(Error::BadDirent("truncated directory entry header"))
    } else {
        let name_len = crate::bytes::le16(buf, p + 6) + 1;
        let end = p + 8 + name_len;
        if name_len > SQUASHFS_NAME_LEN {
            Err(Error::BadDirent("entry name too long"))
        } else if end > buf.len() {
            Err(Error::BadDirent("truncated directory entry name"))
        } else {
            Ok(
                (
                    EntryData {
                        name: buf.subrange(p + 8, end),
                        inode_ref: (0x1_0000 * start + crate::bytes::le16(buf, p)) as u64,
                        type_id: crate::bytes::le16(buf, p + 4),
                        inode_number: moved_by(
                            base,
                            crate::bytes::signed16(crate::bytes::le16(buf, p + 2)),
                        ),
                    },
                    end,
                ),
            )
        }
    }
}

/// The `n` entries from `p` on, and where they end.
pub open spec fn entries_at(buf: Seq<u8>, p: int, start: u32, base: u32, n: nat) -> Result<
    (Seq<EntryData>, int),
>
    decreases n,
{
    if n == 0 {
        Ok((Seq::empty(), p))
    } else {
        match entry_at(buf, p, start, base) {
            Err(e) => Err(e),
            Ok((entry, next)) => match entries_at(buf, next, start, base, (n - 1) as nat) {
                Err(e) => Err(e),
                Ok((rest, end)) => Ok((seq![entry] + rest, end)),
            },
        }
    }
}

/// All entries from `p` to the end of the listing.
pub open spec fn listing_from(buf: Seq<u8>, p: int) -> Result<Seq<EntryData>>
    decreases buf.len() - p,
    via listing_from_decreases
{
    if p >= buf.len() {
        Ok(Seq::empty())
    } else if p + 12 > buf.len() {
        Err(Error::BadDirent("truncated directory header"))
    } else if crate::bytes::le32(buf, p) >= MAX_ENTRIES_PER_HEADER {
        Err(Error::BadDirent("directory header count > 256"))
    } else {
        match entries_at(
            buf,
            p + 12,
            crate::bytes::le32(buf, p + 4),
            crate::bytes::le32(buf, p + 8),
            (crate::bytes::le32(buf, p) + 1) as nat,
        ) {
            Err(e) => Err(e),
            Ok((entries, next)) => match listing_from(buf, next) {
                Err(e) => Err(e),
                Ok(rest) => Ok(entries + rest),
            },
        }
    }
}

#[via_fn]
proof fn listing_from_decreases(buf: Seq<u8>, p: int) {
    if p + 12 <= buf.len() {
        lemma_entries_end(
            buf,
            p + 12,
            crate::bytes::le32(buf, p + 4),
            crate::bytes::le32(buf, p + 8),
            (crate::bytes::le32(buf, p) + 1) as nat,
        );
    }
}

proof fn lemma_entries_end(buf: Seq<u8>, p: int, start: u32, base: u32, n: nat)
    requires
        p <= buf.len(),
    ensures
        entries_at(buf, p, start, base, n) matches Ok((entries, end)) ==> p <= end <= buf.len()
            && entries.len() == n,
    decreases n,
{
    if n > 0 {
        match entry_at(buf, p, start, base) {
            Ok((_, next)) => lemma_entries_end(buf, next, start, base, (n - 1) as nat),
            Err(_) => {},
        }
    }
}

/// The entries of a listing.
pub open spec fn listing(buf: Seq<u8>) -> Result<Seq<EntryData>> {
    listing_from(buf, 0)
}

/// `r` with `out` in front.
spec fn behind(out: Seq<EntryData>, r: Result<Seq<EntryData>>) -> Result<Seq<EntryData>> {
    match r {
        Ok(rest) => Ok(out + rest),
        Err(e) => Err(e),
    }
}

fn parse_entry(buf: &[u8], p: usize, start: u32, base: u32) -> (r: Result<(DirEntry, usize)>)
    requires
        p <= buf.len(),
    ensures
        match r {
            Ok((entry, next)) => {
                &&& entry_at(buf@, p as int, start, base) == Ok::<(EntryData, int), Error>(
                    (entry@, next as int),
                )
                &&& p < next <= buf.len()
            },
            Err(e) => entry_at(buf@, p as int, start, base) == Err::<(EntryData, int), Error>(e),
        },
{
    if buf.len() - p < 8 {
        return Err(Error::BadDirent("truncated directory entry header"));
    }
    let offset: u16 = get_le16(buf, p);
    let delta: i16 = to_signed16(get_le16(buf, p + 2));
    let type_id: u16 = get_le16(buf, p + 4);
    let name_len: usize = get_le16(buf, p + 6) as usize + 1;
    if name_len > SQUASHFS_NAME_LEN {
        return Err(Error::BadDirent("entry name too long"));
    }
    if buf.len() - p - 8 < name_len {
        return Err(Error::BadDirent("truncated directory entry name"));
    }
    let end: usize = p + 8 + name_len;
    let mut name: Vec<u8> = Vec::with_capacity(name_len);
    name.extend_from_slice(&buf[p + 8..end]);
    assert(name@ =~= buf@.subrange(p + 8, end as int));
    let inode_ref: u64 = 0x1_0000 * start as u64 + offset as u64;
    let inode_number: u32 = moved(base, delta);
    Ok((DirEntry { name, inode_ref, type_id, inode_number }, end))
}

/// Parses the `n` entries from `p` on onto the end of `out`. Returns where
/// they end.
fn parse_entries(
    buf: &[u8],
    p: usize,
    start: u32,
    base: u32,
    n: u32,
    out: &mut Vec<DirEntry>,
) -> (r: Result<usize>)
    requires
        p <= buf.len(),
    ensures
        match r {
            Ok(next) => {
                &&& entries_at(buf@, p as int, start, base, n as nat) is Ok
                &&& (entries_at(buf@, p as int, start, base, n as nat)->Ok_0).1 == next
                &&& entry_data(final(out)@) == entry_data(old(out)@) + (entries_at(
                    buf@,
                    p as int,
                    start,
                    base,
                    n as nat,
                )->Ok_0).0
                &&& p <= next <= buf.len()
            },
            Err(e) => entries_at(buf@, p as int, start, base, n as nat) == Err::<
                (Seq<EntryData>, int),
                Error,
            >(e),
        },
    decreases n,
{
    if n == 0 {
        assert(entry_data(out@) + Seq::empty() =~= entry_data(out@));
        return Ok(p);
    }
    let (entry, next): (DirEntry, usize) = parse_entry(buf, p, start, base)?;
    let ghost before = entry_data(out@);
    let ghost data = entry@;
    out.push(entry);
    assert(entry_data(out@) =~= before.push(data));
    let end: usize = parse_entries(buf, next, start, base, n - 1, out)?;
    proof {
        let rest = (entries_at(buf@, next as int, start, base, (n - 1) as nat)->Ok_0).0;
        assert(before.push(data) + rest =~= before + (seq![data] + rest));
    }
    Ok(end)
}

/// Parses a listing. `.` and `..` are implicit, and not among the entries.
pub fn parse_listing(buf: &[u8]) -> (r: Result<Vec<DirEntry>>)
    ensures
        match r {
            Ok(v) => listing(buf@) == Ok::<Seq<EntryData>, Error>(entry_data(v@)),
            Err(e) => listing(buf@) == Err::<Seq<EntryData>, Error>(e),
        },
{
    let mut out: Vec<DirEntry> = Vec::new();
    let mut p: usize = 0;
    proof {
        assert(entry_data(out@) =~= Seq::empty());
        if listing_from(buf@, 0) is Ok {
            assert(Seq::<EntryData>::empty() + listing_from(buf@, 0)->Ok_0 =~= listing_from(
                buf@,
                0,
            )->Ok_0);
        }
    }
    while p < buf.len()
        invariant
            p <= buf.len(),
            listing(buf@) == behind(entry_data(out@), listing_from(buf@, p as int)),
        decreases buf.len() - p,
    {
        if buf.len() - p < 12 {
            return Err(Error::BadDirent("truncated directory header"));
        }
        let count: u32 = get_le32(buf, p);
        let start: u32 = get_le32(buf, p + 4);
        let base: u32 = get_le32(buf, p + 8);
        if count >= MAX_ENTRIES_PER_HEADER {
            return Err(Error::BadDirent("directory header count > 256"));
        }
        let ghost before = entry_data(out@);
        let next: usize = parse_entries(buf, p + 12, start, base, count + 1, &mut out)?;
        proof {
            let entries = (entries_at(buf@, p + 12, start, base, (count + 1) as nat)->Ok_0).0;
            if listing_from(buf@, next as int) is Ok {
                let rest = listing_from(buf@, next as int)->Ok_0;
                assert(before + (entries + rest) =~= (before + entries) + rest);
            }
        }
        p = next;
    }
    assert(entry_data(out@) + Seq::<EntryData>::empty() =~= entry_data(out@));
    Ok(out)
}

/// Every entry of a listing has a name of 1 to 256 bytes, and a reference
/// whose halves are the block offset of its header and the offset in its own
/// record: it is below 2^48.
pub proof fn listing_entries_are_bounded(buf: Seq<u8>, i: int)
    requires
        listing(buf) matches Ok(entries) && 0 <= i < entries.len(),
    ensures
        listing(buf) matches Ok(entries) && 1 <= entries[i].name.len() <= SQUASHFS_NAME_LEN
            && entries[i].inode_ref < 0x1_0000_0000_0000,
{
    lemma_listing_bounded(buf, 0);
}

spec fn bounded(e: EntryData) -> bool {
    1 <= e.name.len() <= SQUASHFS_NAME_LEN && e.inode_ref < 0x1_0000_0000_0000
}

proof fn lemma_entries_bounded(buf: Seq<u8>, p: int, start: u32, base: u32, n: nat)
    requires
        0 <= p,
    ensures
        entries_at(buf, p, start, base, n) matches Ok((entries, end)) ==> end >= p && forall|i: int|
            0 <= i < entries.len() ==> bounded(#[trigger] entries[i]),
    decreases n,
{
    if n > 0 {
        match entry_at(buf, p, start, base) {
            Ok((_, next)) => lemma_entries_bounded(buf, next, start, base, (n - 1) as nat),
            Err(_) => {},
        }
    }
}

proof fn lemma_listing_bounded(buf: Seq<u8>, p: int)
    requires
        0 <= p,
    ensures
        listing_from(buf, p) matches Ok(entries) ==> forall|i: int|
            0 <= i < entries.len() ==> bounded(#[trigger] entries[i]),
    decreases buf.len() - p,
{
    if p + 12 <= buf.len() && crate::bytes::le32(buf, p) < MAX_ENTRIES_PER_HEADER {
        let start = crate::bytes::le32(buf, p + 4);
        let base = crate::bytes::le32(buf, p + 8);
        let n = (crate::bytes::le32(buf, p) + 1) as nat;
        lemma_entries_bounded(buf, p + 12, start, base, n);
        lemma_entries_end(buf, p + 12, start, base, n);
        match entries_at(buf, p + 12, start, base, n) {
            Ok((_, next)) => lemma_listing_bounded(buf, next),
            Err(_) => {},
        }
    }
}

} // verus!
