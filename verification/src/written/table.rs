//! The tables of an image, as they are written.

use vstd::prelude::*;

use crate::error::Error;
use crate::superblock::Superblock;
use crate::table::{Exports, FragmentEntry};
use crate::xattr::{XattrId, XattrIds};
use super::numbers::{numbers32_are_read_back, numbers64_are_read_back};

verus! {

broadcast use {
    super::numbers::lemma_len16,
    super::numbers::lemma_len32,
    super::numbers::lemma_len64,
};

/// Whether a table is written at `start`: an array of pointers, inside the
/// image, to metadata blocks that hold `blocks`, as many as `total` bytes of
/// entries take.
pub open spec fn is_table(
    image: Seq<u8>,
    sb: Superblock,
    start: nat,
    pointers: Seq<u64>,
    blocks: Seq<Seq<u8>>,
    total: nat,
) -> bool {
    let n = pointers.len();
    &&& 8 * n <= usize::MAX
    &&& n == blocks.len()
    &&& 8192 * (n - 1) < total <= 8192 * n
    &&& start + 8 * n <= sb.bytes_used
    &&& super::numbers::stands(image, start as int, super::numbers::all_bytes64(pointers))
    &&& forall|i: int|
        0 <= i < n ==> (crate::metablock::block_at(
            image,
            sb.compression_id,
            (#[trigger] pointers[i]) as nat,
        ) matches Ok((bytes, _)) && bytes == blocks[i])
    &&& total <= super::metablock::joined(blocks).len()
}

proof fn lemma_joined(
    image: Seq<u8>,
    sb: Superblock,
    start: nat,
    pointers: Seq<u64>,
    blocks: Seq<Seq<u8>>,
    n: nat,
)
    requires
        n <= pointers.len() == blocks.len(),
        super::numbers::stands(image, start as int, super::numbers::all_bytes64(pointers)),
        forall|i: int|
            0 <= i < n ==> (crate::metablock::block_at(
                image,
                sb.compression_id,
                (#[trigger] pointers[i]) as nat,
            ) matches Ok((bytes, _)) && bytes == blocks[i]),
    ensures
        crate::table::joined(
            image,
            sb.compression_id,
            image.subrange(start as int, (start + 8 * pointers.len()) as int),
            n,
        ) == Ok::<Seq<u8>, Error>(super::metablock::joined(blocks.take(n as int))),
    decreases n,
{
    let array = image.subrange(start as int, (start + 8 * pointers.len()) as int);
    super::numbers::lemma_all_bytes64_len(pointers);
    if n == 0 {
        assert(blocks.take(0) =~= Seq::<Seq<u8>>::empty());
    } else {
        lemma_joined(image, sb, start, pointers, blocks, (n - 1) as nat);
        assert(array.subrange(0, array.len() as int) =~= array);
        numbers64_are_read_back(array, 0, pointers, n - 1);
        assert(pointers[n - 1] as nat == pointers[n - 1] as nat);
        lemma_joined_push(blocks.take(n - 1), blocks[n - 1]);
        assert(blocks.take(n - 1).push(blocks[n - 1]) =~= blocks.take(n as int));
    }
}

proof fn lemma_joined_push(blocks: Seq<Seq<u8>>, last: Seq<u8>)
    ensures
        super::metablock::joined(blocks.push(last)) == super::metablock::joined(blocks) + last,
    decreases blocks.len(),
{
    let all = blocks.push(last);
    if blocks.len() == 0 {
        assert(all.drop_first() =~= Seq::<Seq<u8>>::empty());
        assert(super::metablock::joined(all.drop_first()) =~= Seq::empty());
        assert(super::metablock::joined(all) =~= super::metablock::joined(blocks) + last);
    } else {
        lemma_joined_push(blocks.drop_first(), last);
        assert(all.drop_first() =~= blocks.drop_first().push(last));
        assert(super::metablock::joined(all) =~= super::metablock::joined(blocks) + last);
    }
}

/// The entries of a table that was written are read back.
pub proof fn table_is_read_back(
    image: Seq<u8>,
    sb: Superblock,
    start: nat,
    pointers: Seq<u64>,
    blocks: Seq<Seq<u8>>,
    total: nat,
)
    requires
        total > 0,
        is_table(image, sb, start, pointers, blocks, total),
    ensures
        crate::table::entries_at(image, sb, start, total) == Ok::<Seq<u8>, Error>(
            super::metablock::joined(blocks),
        ),
{
    let n = pointers.len();
    super::numbers::lemma_all_bytes64_len(pointers);
    assert(crate::table::blocks_for(total) == n);
    lemma_joined(image, sb, start, pointers, blocks, n);
    assert(blocks.take(n as int) =~= blocks);
}

/// The ids that were written are read back, in their order.
pub proof fn ids_are_read_back(
    image: Seq<u8>,
    sb: Superblock,
    pointers: Seq<u64>,
    blocks: Seq<Seq<u8>>,
    ids: Seq<u32>,
)
    requires
        ids.len() == sb.id_count,
        ids.len() > 0 ==> is_table(
            image,
            sb,
            sb.id_table_start as nat,
            pointers,
            blocks,
            4 * ids.len(),
        ),
        ids.len() > 0 ==> super::numbers::stands(
            super::metablock::joined(blocks),
            0,
            super::numbers::all_bytes32(ids),
        ),
    ensures
        crate::table::id_table(image, sb) == Ok::<Seq<u32>, Error>(ids),
{
    if ids.len() > 0 {
        let bytes = super::metablock::joined(blocks);
        table_is_read_back(
            image,
            sb,
            sb.id_table_start as nat,
            pointers,
            blocks,
            4 * ids.len(),
        );
        let got = Seq::new(sb.id_count as nat, |i: int| crate::bytes::le32(bytes, 4 * i));
        assert forall|i: int| 0 <= i < ids.len() implies got[i] == ids[i] by {
            numbers32_are_read_back(bytes, 0, ids, i);
        }
        assert(got =~= ids);
        assert(crate::table::id_table(image, sb)->Ok_0 =~= ids);
    } else {
        assert(crate::table::id_table(image, sb)->Ok_0 =~= ids);
    }
}

/// The bytes of a fragment entry. The last four are not used.
pub open spec fn fragment_bytes(f: FragmentEntry, unused: u32) -> Seq<u8> {
    super::numbers::bytes64(f.start) + (super::numbers::bytes32(f.size) + super::numbers::bytes32(
        unused,
    ))
}

/// The fragment entries that were written are read back, each at its index.
pub proof fn fragments_are_read_back(
    image: Seq<u8>,
    sb: Superblock,
    pointers: Seq<u64>,
    blocks: Seq<Seq<u8>>,
    fragments: Seq<FragmentEntry>,
    unused: u32,
)
    requires
        fragments.len() == sb.fragment_entry_count,
        fragments.len() > 0 ==> is_table(
            image,
            sb,
            sb.fragment_table_start as nat,
            pointers,
            blocks,
            16 * fragments.len(),
        ),
        forall|i: int|
            0 <= i < fragments.len() ==> super::numbers::stands(
                super::metablock::joined(blocks),
                16 * i,
                fragment_bytes(#[trigger] fragments[i], unused),
            ),
    ensures
        crate::table::fragment_table(image, sb) == Ok::<Seq<FragmentEntry>, Error>(fragments),
{
    if fragments.len() > 0 {
        let bytes = super::metablock::joined(blocks);
        table_is_read_back(
            image,
            sb,
            sb.fragment_table_start as nat,
            pointers,
            blocks,
            16 * fragments.len(),
        );
        assert forall|i: int| 0 <= i < fragments.len() implies crate::table::fragment_in(bytes, i)
            == #[trigger] fragments[i] by {
            let f = fragments[i];
            let rest = super::numbers::bytes32(f.size) + super::numbers::bytes32(unused);
            super::numbers::lemma_field64(bytes, 16 * i, f.start, rest);
            super::numbers::lemma_field32(
                bytes,
                16 * i + 8,
                f.size,
                super::numbers::bytes32(unused),
            );
        }
    }
    assert(crate::table::fragment_table(image, sb)->Ok_0 =~= fragments);
}

/// Every inode number leads to the reference that was written for it: the
/// first to the first entry of the first block. A block holds 1024.
pub proof fn exports_are_read_back(
    image: Seq<u8>,
    compression_id: u16,
    exports: Exports,
    number: u32,
    inode_ref: u64,
)
    requires
        1 <= number <= exports.inode_count,
        (number - 1) / 1024 < exports.block_starts.len(),
        crate::metablock::block_at(
            image,
            compression_id,
            exports.block_starts[(number - 1) / 1024] as nat,
        ) matches Ok((bytes, _)) && super::numbers::stands(
            bytes,
            8 * ((number - 1) % 1024),
            super::numbers::bytes64(inode_ref),
        ),
    ensures
        crate::table::exported(image, compression_id, exports, number) == Ok::<u64, Error>(
            inode_ref,
        ),
{
    let (bytes, _) = crate::metablock::block_at(
        image,
        compression_id,
        exports.block_starts[(number - 1) / 1024] as nat,
    )->Ok_0;
    super::numbers::lemma_last64(bytes, 8 * ((number - 1) % 1024), inode_ref);
}

/// A number that no inode has is not found.
pub proof fn other_numbers_are_not_found(
    image: Seq<u8>,
    compression_id: u16,
    exports: Exports,
    number: u32,
)
    requires
        number == 0 || number > exports.inode_count,
    ensures
        crate::table::exported(image, compression_id, exports, number) == Err::<u64, Error>(
            Error::NotFound,
        ),
{
}

/// The export table has the pointers that were written for it, and covers all
/// inodes of the image.
pub proof fn export_table_is_read_back(image: Seq<u8>, sb: Superblock, pointers: Seq<u64>)
    requires
        sb.export_table_start != u64::MAX,
        8 * pointers.len() <= usize::MAX,
        1024 * (pointers.len() - 1) < sb.inode_count <= 1024 * pointers.len(),
        sb.export_table_start + 8 * pointers.len() <= sb.bytes_used,
        super::numbers::stands(
            image,
            sb.export_table_start as int,
            super::numbers::all_bytes64(pointers),
        ),
    ensures
        crate::table::export_table(image, sb) == Ok::<Option<Exports>, Error>(
            Some(Exports { block_starts: pointers, inode_count: sb.inode_count }),
        ),
{
    let n = pointers.len();
    super::numbers::lemma_all_bytes64_len(pointers);
    assert(crate::table::blocks_for(8 * sb.inode_count as nat) == n);
    let start = sb.export_table_start as int;
    let array = image.subrange(start, start + 8 * n);
    let got = Seq::new(n, |i: int| crate::bytes::le64(array, 8 * i));
    assert(array.subrange(0, array.len() as int) =~= array);
    assert forall|i: int| 0 <= i < n implies got[i] == pointers[i] by {
        numbers64_are_read_back(array, 0, pointers, i);
    }
    assert(got =~= pointers);
    let table = crate::table::export_table(image, sb)->Ok_0->0;
    assert(table.block_starts =~= pointers);
}

/// A table that is marked as missing is none, and no error.
pub proof fn missing_tables_are_none(image: Seq<u8>, sb: Superblock)
    ensures
        sb.export_table_start == u64::MAX ==> crate::table::export_table(image, sb) == Ok::<
            Option<Exports>,
            Error,
        >(None),
        sb.xattr_id_table_start == u64::MAX ==> crate::xattr::xattr_table(image, sb) == Ok::<
            Option<XattrIds>,
            Error,
        >(None),
{
}

/// The bytes of the entry of an attribute set.
pub open spec fn set_bytes(x: XattrId) -> Seq<u8> {
    super::numbers::bytes64(x.xattr_ref) + (super::numbers::bytes32(x.count)
        + super::numbers::bytes32(x.size))
}

/// The table of attribute sets that was written is read back: a header, and
/// the entries behind their pointers.
pub proof fn sets_are_read_back(
    image: Seq<u8>,
    sb: Superblock,
    t: XattrIds,
    unused: u32,
    pointers: Seq<u64>,
    blocks: Seq<Seq<u8>>,
)
    requires
        sb.xattr_id_table_start != u64::MAX,
        t.ids.len() <= u32::MAX,
        super::numbers::stands(
            image,
            sb.xattr_id_table_start as int,
            super::numbers::bytes64(t.table_start) + (super::numbers::bytes32(t.ids.len() as u32)
                + super::numbers::bytes32(unused)),
        ),
        t.ids.len() > 0 ==> t.table_start < sb.xattr_id_table_start && is_table(
            image,
            sb,
            (sb.xattr_id_table_start + 16) as nat,
            pointers,
            blocks,
            16 * t.ids.len(),
        ),
        forall|i: int|
            0 <= i < t.ids.len() ==> super::numbers::stands(
                super::metablock::joined(blocks),
                16 * i,
                set_bytes(#[trigger] t.ids[i]),
            ),
    ensures
        crate::xattr::xattr_table(image, sb) == Ok::<Option<XattrIds>, Error>(Some(t)),
{
    let at = sb.xattr_id_table_start as int;
    let n = t.ids.len() as u32;
    let header = image.subrange(at, at + 16);
    let rest = super::numbers::bytes32(n) + super::numbers::bytes32(unused);
    let whole = super::numbers::bytes64(t.table_start) + rest;
    assert(header.subrange(0, 16) =~= header);
    super::numbers::lemma_field64(header, 0, t.table_start, rest);
    super::numbers::lemma_field32(header, 8, n, super::numbers::bytes32(unused));
    if n == 0 {
        assert(t =~= (XattrIds { table_start: t.table_start, ids: Seq::empty() }));
    } else {
        let bytes = super::metablock::joined(blocks);
        table_is_read_back(image, sb, (at + 16) as nat, pointers, blocks, 16 * t.ids.len());
        let got = Seq::new(n as nat, |i: int| crate::xattr::id_in(bytes, i));
        assert forall|i: int| 0 <= i < n implies got[i] == #[trigger] t.ids[i] by {
            let x = t.ids[i];
            let tail = super::numbers::bytes32(x.count) + super::numbers::bytes32(x.size);
            super::numbers::lemma_field64(bytes, 16 * i, x.xattr_ref, tail);
            super::numbers::lemma_field32(
                bytes,
                16 * i + 8,
                x.count,
                super::numbers::bytes32(x.size),
            );
            super::numbers::lemma_last32(bytes, 16 * i + 12, x.size);
        }
        assert(got =~= t.ids);
        assert(t =~= (XattrIds { table_start: t.table_start, ids: got }));
    }
}

} // verus!
