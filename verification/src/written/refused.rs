//! What no writer writes, and what is made of it: an error, never other
//! content.

use vstd::prelude::*;

use crate::data::Volume;
use crate::decompress::Compressor;
use crate::error::Error;
use crate::inode::InodeData;
use crate::metablock::Stream;
use crate::superblock::Superblock;
use crate::xattr::{XattrData, XattrIds};

verus! {

broadcast use {
    super::numbers::lemma_len16,
    super::numbers::lemma_len32,
    super::numbers::lemma_len64,
};

// ---- metadata ----

/// A metadata block that is read is there: its header, a payload of 1 to 8192
/// bytes right behind it, and no more than 8192 bytes in that.
#[verifier::rlimit(60)]
pub proof fn blocks_are_there(
    image: Seq<u8>,
    compression_id: u16,
    abs: nat,
    bytes: Seq<u8>,
    next: nat,
)
    requires
        crate::metablock::block_at(image, compression_id, abs) == Ok::<(Seq<u8>, nat), Error>(
            (bytes, next),
        ),
    ensures
        abs + 3 <= next <= abs + 2 + 8192,
        next <= image.len(),
        bytes.len() <= 8192,
        ({
            let payload = image.subrange(abs as int + 2, next as int);
            ||| super::numbers::stands(
                image,
                abs as int,
                super::metablock::stored_block(payload),
            ) && bytes == payload
            ||| super::numbers::stands(image, abs as int, super::metablock::packed_block(payload))
                && crate::metablock::payload_bytes(
                compression_id,
                payload.len() as u16,
                payload,
            ) == Ok::<Seq<u8>, Error>(bytes)
        }),
{
    crate::metablock::block_is_bounded(image, compression_id, abs);
    let header = lemma_header_of(image, compression_id, abs, bytes, next);
    let payload = image.subrange(abs as int + 2, next as int);
    super::metablock::lemma_block(image, compression_id, abs, header, payload);
    if header < 0x8000 {
        assert(header == payload.len());
    }
}

/// A compressed payload is decompressed by the compressor of the image's own
/// id, in at most 8192 bytes; under an id that no compressor has it is
/// refused.
#[verifier::rlimit(60)]
pub proof fn payloads_are_decompressed_by_their_id(
    compression_id: u16,
    comp: Compressor,
    header: u16,
    payload: Seq<u8>,
)
    requires
        header < 0x8000,
    ensures
        super::codec::id_of(comp) == compression_id ==> crate::metablock::payload_bytes(
            compression_id,
            header,
            payload,
        ) == crate::decompress::decompressed(comp, payload, 8192),
        compression_id == 0 || compression_id > 6 ==> crate::metablock::payload_bytes(
            compression_id,
            header,
            payload,
        ) == Err::<Seq<u8>, Error>(Error::UnsupportedCompression(compression_id)),
{
    super::codec::compressors_are_known_by_their_ids(compression_id, comp);
}

#[verifier::rlimit(60)]
proof fn lemma_header_of(
    image: Seq<u8>,
    compression_id: u16,
    abs: nat,
    bytes: Seq<u8>,
    next: nat,
) -> (header: u16)
    requires
        crate::metablock::block_at(image, compression_id, abs) == Ok::<(Seq<u8>, nat), Error>(
            (bytes, next),
        ),
    ensures
        abs + 3 <= next <= abs + 2 + 8192,
        next <= image.len(),
        header % 0x8000 == next - abs - 2,
        super::numbers::stands(
            image,
            abs as int,
            super::numbers::bytes16(header) + image.subrange(abs as int + 2, next as int),
        ),
{
    reveal(crate::metablock::block_at);
    let header = crate::bytes::le16(image.subrange(abs as int, abs as int + 2), 0);
    let payload = image.subrange(abs as int + 2, next as int);
    assert(header == crate::bytes::le16(image, abs as int));
    reveal(super::numbers::holds16);
    super::numbers::number16_is_read_back(image, abs as int, header);
    assert(super::numbers::stands(image, abs as int + 2, payload));
    super::numbers::lemma_stands_apart(
        image,
        abs as int,
        super::numbers::bytes16(header),
        payload,
    );
    header
}

/// A place past the end of its block is refused.
pub proof fn places_past_their_block_are_refused(
    image: Seq<u8>,
    compression_id: u16,
    abs: nat,
    in_block: nat,
    bytes: Seq<u8>,
    next: nat,
)
    requires
        crate::metablock::block_at(image, compression_id, abs) == Ok::<(Seq<u8>, nat), Error>(
            (bytes, next),
        ),
        in_block > bytes.len(),
    ensures
        crate::metablock::stream_at(image, compression_id, abs, in_block) matches Err(
            Error::BadMetadata(_),
        ),
{
}

/// A record that goes on in a block that cannot be read is not read, for that
/// reason; nor is one that goes on in an empty block.
pub proof fn records_are_not_cut(image: Seq<u8>, compression_id: u16, s: Stream, n: nat)
    requires
        n > s.rest.len(),
    ensures
        crate::metablock::block_at(image, compression_id, s.next_abs) matches Err(e)
            ==> crate::metablock::stream_read(image, compression_id, s, n) == Err::<
            (Seq<u8>, Stream),
            Error,
        >(e),
        crate::metablock::block_at(image, compression_id, s.next_abs) matches Ok((bytes, _))
            && bytes.len() == 0 ==> (crate::metablock::stream_read(image, compression_id, s, n)
            matches Err(Error::BadMetadata(_))),
{
}

// ---- inodes ----

/// The size words of a file end where its blocks do, and its blocks are as
/// many as its size calls for, up to 2^24 of them. A longer file is refused.
pub proof fn files_have_the_blocks_they_need(file_size: u64, block_size: u64, fragment: u32)
    requires
        block_size > 0,
    ensures
        crate::inode::data_blocks(file_size, block_size, fragment) matches Ok(n) ==> {
            &&& n <= 0x100_0000
            &&& fragment == 0xFFFF_FFFF ==> n * block_size >= file_size && (n > 0 ==> (n - 1)
                * block_size < file_size)
            &&& fragment != 0xFFFF_FFFF ==> n * block_size <= file_size && file_size < (n + 1)
                * block_size
        },
        crate::inode::data_blocks(file_size, block_size, fragment) matches Err(e) ==> {
            &&& e is BadInode
            &&& 0x100_0000 * block_size < file_size
        },
{
    let q = (file_size / block_size) as int;
    let r = (file_size % block_size) as int;
    let b = block_size as int;
    vstd::arithmetic::div_mod::lemma_fundamental_div_mod(file_size as int, b);
    assert(q * b == b * q && (q + 1) * b == q * b + b && (q - 1) * b == q * b - b)
        by (nonlinear_arith);
    assert(q > 0x100_0000 ==> q * b >= 0x100_0001 * b) by (nonlinear_arith)
        requires
            b > 0,
    ;
    assert(q == 0x100_0000 ==> q * b == 0x100_0000 * b) by (nonlinear_arith);
}

/// A symlink target of more than 64 KiB is refused, and so is a file of more
/// blocks than one can have, whatever stands behind its fields.
pub proof fn outsized_inodes_are_refused(
    image: Seq<u8>,
    compression_id: u16,
    block_size: u64,
    s: Stream,
    d: InodeData,
)
    requires
        block_size > 0,
        (d.inode_type == 3 || d.inode_type == 10) && d.file_size > 0x1_0000 || (d.inode_type == 2
            || d.inode_type == 9) && d.file_size >= 0x100_0001 * block_size,
    ensures
        crate::inode::with_tail(image, compression_id, block_size, s, d) matches Err(
            Error::BadInode(_),
        ),
{
    if d.inode_type == 2 || d.inode_type == 9 {
        files_have_the_blocks_they_need(d.file_size, block_size, d.fragment_index);
        if let Ok(n) = crate::inode::data_blocks(d.file_size, block_size, d.fragment_index) {
            assert((n + 1) * block_size <= 0x100_0001 * block_size) by (nonlinear_arith)
                requires
                    n <= 0x100_0000,
            ;
            assert(n * block_size <= 0x100_0000 * block_size) by (nonlinear_arith)
                requires
                    n <= 0x100_0000,
            ;
        }
    }
}

// ---- tables ----

/// The entries of a table are as many bytes as were asked for, at least, and
/// the pointers to them stand before the end of the image and of the
/// filesystem in it.
pub proof fn tables_stay_in_the_image(
    image: Seq<u8>,
    sb: Superblock,
    start: nat,
    total: nat,
    bytes: Seq<u8>,
)
    requires
        crate::table::entries_at(image, sb, start, total) == Ok::<Seq<u8>, Error>(bytes),
        total > 0,
    ensures
        bytes.len() >= total,
        start + 8 * ((total + 8191) / 8192) <= image.len(),
        start + 8 * ((total + 8191) / 8192) <= sb.bytes_used,
{
}

/// Pointers that leave the filesystem are refused before anything is read.
pub proof fn tables_without_room_are_refused(image: Seq<u8>, sb: Superblock, start: nat, total: nat)
    requires
        total > 0,
        start + 8 * ((total + 8191) / 8192) > image.len() || start + 8 * ((total + 8191) / 8192)
            > sb.bytes_used,
    ensures
        crate::table::entries_at(image, sb, start, total) matches Err(Error::BadMetadata(_)),
        !crate::table::entries_are_read(image, sb, start, total),
{
}

/// A reference is read out of a block that holds it whole; a number whose
/// block is missing or too short has none.
pub proof fn short_export_tables_are_noticed(
    image: Seq<u8>,
    compression_id: u16,
    exports: crate::table::Exports,
    number: u32,
)
    requires
        1 <= number <= exports.inode_count,
    ensures
        (number - 1) / 1024 >= exports.block_starts.len() ==> (crate::table::exported(
            image,
            compression_id,
            exports,
            number,
        ) matches Err(Error::BadMetadata(_))),
        (number - 1) / 1024 < exports.block_starts.len() ==> (crate::metablock::block_at(
            image,
            compression_id,
            exports.block_starts[(number - 1) / 1024] as nat,
        ) matches Ok((bytes, _)) && bytes.len() < 8 * ((number - 1) % 1024) + 8
            ==> (crate::table::exported(image, compression_id, exports, number) matches Err(
            Error::BadMetadata(_),
        ))),
{
}

/// Attribute sets that start behind the table that leads to them are refused.
pub proof fn sets_behind_their_table_are_refused(
    image: Seq<u8>,
    sb: Superblock,
    start: u64,
    count: u32,
)
    requires
        sb.xattr_id_table_start != 0xFFFF_FFFF_FFFF_FFFF,
        sb.xattr_id_table_start + 16 <= image.len(),
        super::numbers::stands(
            image,
            sb.xattr_id_table_start as int,
            super::numbers::bytes64(start) + super::numbers::bytes32(count),
        ),
        count > 0,
        start >= sb.xattr_id_table_start,
    ensures
        crate::xattr::xattr_table(image, sb) matches Err(Error::BadMetadata(_)),
{
    let at = sb.xattr_id_table_start as int;
    let header = image.subrange(at, at + 16);
    super::numbers::lemma_field64(image, at, start, super::numbers::bytes32(count));
    super::numbers::lemma_last32(image, at + 8, count);
    assert(crate::bytes::le64(header, 0) == crate::bytes::le64(image, at));
    assert(crate::bytes::le32(header, 8) == crate::bytes::le32(image, at + 8));
}

// ---- attributes ----

/// The names and values of a set are of the lengths that the format allows,
/// each name has one of the three prefixes, and together they are as long as
/// the set was said to be and as many.
pub proof fn sets_are_what_they_claim(
    image: Seq<u8>,
    compression_id: u16,
    table: XattrIds,
    index: u32,
    set: Seq<XattrData>,
)
    requires
        crate::xattr::set_at(image, compression_id, table, index) == Ok::<Seq<XattrData>, Error>(
            set,
        ),
    ensures
        index < table.ids.len(),
        set.len() == table.ids[index as int].count,
        set.len() <= 16384,
        lengths(set) == table.ids[index as int].size,
        forall|i: int|
            0 <= i < set.len() ==> {
                &&& #[trigger] set[i].name.len() <= 255
                &&& set[i].value.len() <= 65536
                &&& exists|p: int|
                    0 <= p < 3 && super::numbers::stands(
                        set[i].name,
                        0,
                        #[trigger] super::xattr::prefixes()[p],
                    )
            },
{
    let id = table.ids[index as int];
    let r = crate::metablock::MetadataRef::unpacked(id.xattr_ref);
    let s = crate::metablock::stream_at(
        image,
        compression_id,
        r.absolute(table.table_start) as nat,
        r.in_block as nat,
    )->Ok_0;
    lemma_pairs(
        image,
        compression_id,
        table.table_start,
        s,
        id.count as nat,
        0,
        id.size as nat,
        set,
    );
}

/// What the names of a set, a zero byte behind each, and its values add up
/// to.
pub open spec fn lengths(set: Seq<XattrData>) -> nat
    decreases set.len(),
{
    if set.len() == 0 {
        0
    } else {
        set[0].name.len() + 1 + set[0].value.len() + lengths(set.drop_first())
    }
}

proof fn lemma_pairs(
    image: Seq<u8>,
    compression_id: u16,
    table_start: u64,
    s: Stream,
    n: nat,
    total: nat,
    size: nat,
    set: Seq<XattrData>,
)
    requires
        crate::xattr::pairs_in(image, compression_id, table_start, s, n, total, size) == Ok::<
            Seq<XattrData>,
            Error,
        >(set),
    ensures
        set.len() == n,
        total + lengths(set) == size,
        forall|i: int|
            0 <= i < set.len() ==> {
                &&& #[trigger] set[i].name.len() <= 255
                &&& set[i].value.len() <= 65536
                &&& exists|p: int|
                    0 <= p < 3 && super::numbers::stands(
                        set[i].name,
                        0,
                        #[trigger] super::xattr::prefixes()[p],
                    )
            },
    decreases n,
{
    if n > 0 {
        let (x, s1) = crate::xattr::pair_in(image, compression_id, table_start, s)->Ok_0;
        lemma_one_pair(image, compression_id, table_start, s, x, s1);
        let more = crate::xattr::pairs_in(
            image,
            compression_id,
            table_start,
            s1,
            (n - 1) as nat,
            total + crate::xattr::share(x),
            size,
        )->Ok_0;
        lemma_pairs(
            image,
            compression_id,
            table_start,
            s1,
            (n - 1) as nat,
            total + crate::xattr::share(x),
            size,
            more,
        );
        assert(set.drop_first() =~= more);
        assert forall|i: int| 0 <= i < set.len() implies {
            &&& #[trigger] set[i].name.len() <= 255
            &&& set[i].value.len() <= 65536
            &&& exists|p: int|
                0 <= p < 3 && super::numbers::stands(
                    set[i].name,
                    0,
                    #[trigger] super::xattr::prefixes()[p],
                )
        } by {
            if i > 0 {
                assert(set[i] == more[i - 1]);
            }
        }
    }
}

proof fn lemma_one_pair(
    image: Seq<u8>,
    compression_id: u16,
    table_start: u64,
    s: Stream,
    x: XattrData,
    s1: Stream,
)
    requires
        crate::xattr::pair_in(image, compression_id, table_start, s) == Ok::<
            (XattrData, Stream),
            Error,
        >((x, s1)),
    ensures
        x.name.len() <= 255,
        x.value.len() <= 65536,
        exists|p: int|
            0 <= p < 3 && super::numbers::stands(
                x.name,
                0,
                #[trigger] super::xattr::prefixes()[p],
            ),
{
    let (h, t1) = crate::metablock::stream_read(image, compression_id, s, 4)->Ok_0;
    let raw_type = crate::bytes::le16(h, 0);
    let name_size = crate::bytes::le16(h, 2);
    let (suffix, t2) = crate::metablock::stream_read(
        image,
        compression_id,
        t1,
        name_size as nat,
    )->Ok_0;
    let p = (raw_type % 0x100) as int;
    let prefix = super::xattr::prefixes()[p];
    assert(crate::xattr::prefix_of(raw_type % 0x100)->0 =~= prefix);
    assert(x.name.subrange(0, prefix.len() as int) =~= prefix);
    if (raw_type / 0x100) % 2 == 0 {
        let (len, t3) = crate::metablock::stream_read(image, compression_id, t2, 4)->Ok_0;
        crate::metablock::stream_read_gives_all(
            image,
            compression_id,
            t3,
            crate::bytes::le32(len, 0) as nat,
        );
    } else {
        let (len, t3) = crate::metablock::stream_read(image, compression_id, t2, 4)->Ok_0;
        let (target, t4) = crate::metablock::stream_read(image, compression_id, t3, 8)->Ok_0;
        let r = crate::metablock::MetadataRef::unpacked(crate::bytes::le64(target, 0));
        let u = crate::metablock::stream_at(
            image,
            compression_id,
            r.absolute(table_start) as nat,
            r.in_block as nat,
        )->Ok_0;
        let (olen, u1) = crate::metablock::stream_read(image, compression_id, u, 4)->Ok_0;
        crate::metablock::stream_read_gives_all(
            image,
            compression_id,
            u1,
            crate::bytes::le32(olen, 0) as nat,
        );
    }
}

// ---- files ----

/// A block of a file that is read is as long as its place in the file calls
/// for: a whole block, or what is left of the file.
pub proof fn blocks_of_the_wrong_length_are_refused(
    image: Seq<u8>,
    vol: Volume,
    d: InodeData,
    i: nat,
    b: Seq<u8>,
)
    requires
        vol.block_size > 0,
        i < d.block_sizes.len(),
        i * vol.block_size < d.file_size,
        crate::data::logical_block(image, vol, d, i) == Ok::<Seq<u8>, Error>(b),
    ensures
        (i + 1) * vol.block_size <= d.file_size ==> b.len() == vol.block_size,
        (i + 1) * vol.block_size > d.file_size ==> b.len() == d.file_size - i * vol.block_size,
        d.block_sizes[i as int] % 0x100_0000 <= vol.block_size,
{
    let bs = vol.block_size as int;
    assert((i + 1) * bs == i * bs + bs) by (nonlinear_arith);
    super::data::size_words_are_read_back(d.block_sizes[i as int] % 0x100_0000, false);
    reveal(crate::data::data_block_at);
}

/// A tail that its fragment block does not hold is refused, and so is one in a
/// fragment block that does not exist. A file without a tail ends with its
/// blocks.
pub proof fn missing_tails_are_refused(
    image: Seq<u8>,
    vol: Volume,
    d: InodeData,
    i: nat,
)
    requires
        d.block_sizes.len() <= i,
        d.inode_type == 2 || d.inode_type == 9,
        d.block_sizes.len() * vol.block_size <= d.file_size,
    ensures
        d.fragment_index == 0xFFFF_FFFF ==> crate::data::logical_block(image, vol, d, i) == Err::<
            Seq<u8>,
            Error,
        >(Error::OutOfRange),
        d.fragment_index != 0xFFFF_FFFF && d.fragment_index >= vol.fragments.len() ==> (
        crate::data::logical_block(image, vol, d, i) matches Err(Error::BadInode(_))),
        crate::data::logical_block(image, vol, d, i) matches Ok(b) ==> {
            &&& d.fragment_index < vol.fragments.len()
            &&& b.len() == d.file_size - d.block_sizes.len() * vol.block_size
            &&& crate::data::data_block_at(
                image,
                vol.comp,
                vol.block_size,
                vol.fragments[d.fragment_index as int].start,
                vol.fragments[d.fragment_index as int].size,
                vol.block_size as nat,
            ) matches Ok(shared) && super::numbers::stands(shared, d.fragment_offset as int, b)
        },
{
}

/// A read fails where a block that it needs cannot be had.
pub proof fn reads_need_all_their_blocks(
    image: Seq<u8>,
    vol: Volume,
    d: InodeData,
    offset: nat,
    wanted: nat,
    i: nat,
)
    requires
        vol.block_size > 0,
        d.inode_type == 2 || d.inode_type == 9,
        wanted > 0,
        offset < d.file_size,
        offset / vol.block_size as nat <= i,
        i * vol.block_size < offset + wanted,
        i * vol.block_size < d.file_size,
        crate::data::logical_block(image, vol, d, i) is Err,
    ensures
        crate::data::file_read(image, vol, d, offset, wanted) is Err,
{
    let end = offset + crate::data::read_len(d.file_size as nat, offset, wanted);
    lemma_span_needs(image, vol, d, offset, end, i);
}

proof fn lemma_span_needs(
    image: Seq<u8>,
    vol: Volume,
    d: InodeData,
    pos: nat,
    end: nat,
    i: nat,
)
    requires
        vol.block_size > 0,
        pos < end <= d.file_size,
        pos / vol.block_size as nat <= i,
        i * vol.block_size < end,
        crate::data::logical_block(image, vol, d, i) is Err,
    ensures
        crate::data::span(image, vol, d, pos, end) is Err,
    decreases end - pos,
{
    let bs = vol.block_size as nat;
    let j = pos / bs;
    let off = pos % bs;
    vstd::arithmetic::div_mod::lemma_fundamental_div_mod(pos as int, bs as int);
    if j < i {
        if let Ok(block) = crate::data::logical_block(image, vol, d, j) {
            if off < block.len() {
                let take = if block.len() - off < end - pos {
                    (block.len() - off) as nat
                } else {
                    (end - pos) as nat
                };
                assert((j + 1) * bs == bs * j + bs) by (nonlinear_arith);
                assert(j * bs == bs * j) by (nonlinear_arith);
                assert((j + 1) * bs <= i * bs) by (nonlinear_arith)
                    requires
                        j + 1 <= i,
                ;
                crate::data::logical_block_has_its_length(image, vol, d, j);
                let next = pos + take;
                assert(next == (j + 1) * bs);
                vstd::arithmetic::div_mod::lemma_fundamental_div_mod_converse(
                    next as int,
                    bs as int,
                    j as int + 1,
                    0,
                );
                lemma_span_needs(image, vol, d, next, end, i);
            }
        }
    }
}

// ---- what is passed on ----

/// A listing that cannot be read is an error, and never an empty directory; so
/// is a name in it.
pub proof fn damaged_listings_are_errors(
    image: Seq<u8>,
    sb: Superblock,
    d: InodeData,
    name: Seq<u8>,
    e: Error,
)
    requires
        d.inode_type == 1 || d.inode_type == 8,
        3 < d.file_size <= u32::MAX,
        sb.directory_table_start + d.dir_start_block <= u64::MAX,
        match crate::metablock::stream_at(
            image,
            sb.compression_id,
            (sb.directory_table_start + d.dir_start_block) as nat,
            d.dir_block_offset as nat,
        ) {
            Err(x) => x == e,
            Ok(s) => match crate::metablock::stream_read(
                image,
                sb.compression_id,
                s,
                (d.file_size - 3) as nat,
            ) {
                Err(x) => x == e,
                Ok((buf, _)) => crate::dir::listing(buf) == Err::<
                    Seq<crate::dir::EntryData>,
                    Error,
                >(e),
            },
        },
    ensures
        crate::fs::dir_entries(image, sb, d) == Err::<Seq<crate::dir::EntryData>, Error>(e),
        crate::fs::child(image, sb, d, name) == Err::<InodeData, Error>(e),
{
    reveal(crate::fs::child);
}

/// An inode that cannot be read is an error: in its block, in the fields that
/// every inode has, in those of its type and in what follows them.
pub proof fn damaged_inodes_are_errors(image: Seq<u8>, sb: Superblock, block: u64, in_block: u16)
    requires
        block < 0x1_0000_0000_0000,
        sb.inode_table_start + block <= u64::MAX,
    ensures
        ({
            let id = sb.compression_id;
            let got = crate::inode::inode_at(image, sb, (block * 0x1_0000 + in_block) as u64);
            match crate::metablock::stream_at(
                image,
                id,
                (sb.inode_table_start + block) as nat,
                in_block as nat,
            ) {
                Err(e) => got == Err::<InodeData, Error>(e),
                Ok(s) => match crate::metablock::stream_read(image, id, s, 16) {
                    Err(e) => got == Err::<InodeData, Error>(e),
                    Ok((h, s1)) => crate::inode::body_len(crate::bytes::le16(h, 0)) matches Ok(n)
                        ==> (crate::metablock::stream_read(image, id, s1, n) matches Err(e)
                        ==> got == Err::<InodeData, Error>(e)),
                },
            }
        }),
{
    super::metablock::references_lead_to_their_place(sb.inode_table_start, block, in_block);
}

/// Size words or a target that cannot be read make the inode an error.
pub proof fn damaged_tails_are_errors(
    image: Seq<u8>,
    compression_id: u16,
    block_size: u64,
    s: Stream,
    d: InodeData,
    n: nat,
    e: Error,
)
    requires
        block_size > 0,
        d.inode_type == 3 || d.inode_type == 10 ==> n == d.file_size && n <= 0x1_0000,
        d.inode_type == 2 || d.inode_type == 9 ==> (crate::inode::data_blocks(
            d.file_size,
            block_size,
            d.fragment_index,
        ) matches Ok(k) && n == 4 * k),
        d.inode_type == 2 || d.inode_type == 9 || d.inode_type == 3 || d.inode_type == 10,
        crate::metablock::stream_read(image, compression_id, s, n) == Err::<
            (Seq<u8>, Stream),
            Error,
        >(e),
    ensures
        crate::inode::with_tail(image, compression_id, block_size, s, d) == Err::<InodeData, Error>(
            e,
        ),
{
}

/// Attributes that cannot be read are an error, and never none.
pub proof fn damaged_sets_are_errors(
    image: Seq<u8>,
    m: crate::fs::Mount,
    d: InodeData,
    table: XattrIds,
    e: Error,
)
    requires
        m.xattrs == Some(table),
        d.xattr_index != 0xFFFF_FFFF,
        d.xattr_index < table.ids.len(),
        1 <= table.ids[d.xattr_index as int].count <= 16384,
        table.table_start + table.ids[d.xattr_index as int].xattr_ref / 0x1_0000 <= u64::MAX,
        match crate::metablock::stream_at(
            image,
            m.sb.compression_id,
            (table.table_start + table.ids[d.xattr_index as int].xattr_ref / 0x1_0000) as nat,
            (table.ids[d.xattr_index as int].xattr_ref % 0x1_0000) as nat,
        ) {
            Err(x) => x == e,
            Ok(s) => crate::xattr::pair_in(image, m.sb.compression_id, table.table_start, s)
                == Err::<(XattrData, Stream), Error>(e),
        },
    ensures
        crate::fs::attributes(image, m, d) == Err::<Seq<XattrData>, Error>(e),
{
}

/// A pair that cannot be read makes the pairs an error, wherever among them it
/// stands.
pub proof fn damaged_pairs_are_errors(
    image: Seq<u8>,
    compression_id: u16,
    table_start: u64,
    s: Stream,
    n: nat,
    total: nat,
    size: nat,
    x: XattrData,
    next: Stream,
    e: Error,
)
    requires
        n > 0,
        crate::xattr::pair_in(image, compression_id, table_start, s) == Ok::<
            (XattrData, Stream),
            Error,
        >((x, next)),
        total + x.name.len() + 1 + x.value.len() <= size,
        crate::xattr::pairs_in(
            image,
            compression_id,
            table_start,
            next,
            (n - 1) as nat,
            total + x.name.len() + 1 + x.value.len(),
            size,
        ) == Err::<Seq<XattrData>, Error>(e),
    ensures
        crate::xattr::pairs_in(image, compression_id, table_start, s, n, total, size) == Err::<
            Seq<XattrData>,
            Error,
        >(e),
{
}

/// A table with a block that cannot be read is an error.
pub proof fn damaged_tables_are_errors(
    image: Seq<u8>,
    sb: Superblock,
    start: nat,
    total: nat,
    i: nat,
)
    requires
        total > 0,
        start + 8 * ((total + 8191) / 8192) <= image.len(),
        start + 8 * ((total + 8191) / 8192) <= sb.bytes_used,
        8 * ((total + 8191) / 8192) <= usize::MAX,
        i < (total + 8191) / 8192,
        crate::metablock::block_at(
            image,
            sb.compression_id,
            crate::bytes::le64(image, start + 8 * i as int) as nat,
        ) is Err,
    ensures
        crate::table::entries_at(image, sb, start, total) is Err,
{
    let n = ((total + 8191) / 8192) as nat;
    let pointers = image.subrange(start as int, (start + 8 * n) as int);
    assert(crate::bytes::le64(pointers, 8 * i as int) == crate::bytes::le64(image, start + 8 * i as int));
    lemma_joined_needs(image, sb.compression_id, pointers, n, i);
}

proof fn lemma_joined_needs(
    image: Seq<u8>,
    compression_id: u16,
    pointers: Seq<u8>,
    n: nat,
    i: nat,
)
    requires
        i < n,
        crate::metablock::block_at(
            image,
            compression_id,
            crate::bytes::le64(pointers, 8 * i as int) as nat,
        ) is Err,
    ensures
        crate::table::joined(image, compression_id, pointers, n) is Err,
    decreases n,
{
    if i < n - 1 {
        lemma_joined_needs(image, compression_id, pointers, (n - 1) as nat, i);
    }
}

/// A reference whose block cannot be read is that error.
pub proof fn damaged_export_blocks_are_errors(
    image: Seq<u8>,
    compression_id: u16,
    exports: crate::table::Exports,
    number: u32,
    e: Error,
)
    requires
        1 <= number <= exports.inode_count,
        (number - 1) / 1024 < exports.block_starts.len(),
        crate::metablock::block_at(
            image,
            compression_id,
            exports.block_starts[(number - 1) / 1024] as nat,
        ) == Err::<(Seq<u8>, nat), Error>(e),
    ensures
        crate::table::exported(image, compression_id, exports, number) == Err::<u64, Error>(e),
{
}

/// A data block that cannot be read is an error, and never zeros: in a file it
/// is that of the block, and for a tail that of the fragment block.
pub proof fn damaged_blocks_are_errors(image: Seq<u8>, vol: Volume, d: InodeData, i: nat, e: Error)
    requires
        d.inode_type == 2 || d.inode_type == 9,
        super::data::laid_at(d, d.block_sizes.len()) <= u64::MAX,
        i < d.block_sizes.len() ==> d.block_sizes[i as int] % 0x100_0000 != 0
            && crate::data::data_block_at(
            image,
            vol.comp,
            vol.block_size,
            super::data::laid_at(d, i) as u64,
            d.block_sizes[i as int],
            crate::data::block_len(d.file_size as nat, vol.block_size as nat, i),
        ) == Err::<Seq<u8>, Error>(e),
        i >= d.block_sizes.len() ==> d.fragment_index != 0xFFFF_FFFF && d.fragment_index
            < vol.fragments.len() && crate::data::data_block_at(
            image,
            vol.comp,
            vol.block_size,
            vol.fragments[d.fragment_index as int].start,
            vol.fragments[d.fragment_index as int].size,
            vol.block_size as nat,
        ) == Err::<Seq<u8>, Error>(e),
    ensures
        crate::data::logical_block(image, vol, d, i) == Err::<Seq<u8>, Error>(e),
{
    if i < d.block_sizes.len() {
        super::data::lemma_laid_at(d, i, d.block_sizes.len());
    }
}

/// A table of attribute sets that is past the end of the image is an error.
pub proof fn missing_set_tables_are_errors(image: Seq<u8>, sb: Superblock)
    requires
        sb.xattr_id_table_start != 0xFFFF_FFFF_FFFF_FFFF,
        sb.xattr_id_table_start + 16 > image.len(),
    ensures
        crate::xattr::xattr_table(image, sb) matches Err(Error::Block(_)),
{
}

/// An image that is too short for a superblock is a short read, and what is
/// wrong with a superblock is what is wrong with the image, for a mount and
/// for the cache under it.
pub proof fn damaged_superblocks_are_errors(image: Seq<u8>, blocks: usize, e: Error)
    ensures
        image.len() < 96 ==> (crate::superblock::superblock_of(image) matches Err(Error::Block(_))),
        image.len() >= 96 ==> crate::superblock::superblock_of(image)
            == crate::superblock::parsed(image.subrange(0, 96)),
        crate::superblock::superblock_of(image) == Err::<Superblock, Error>(e) ==> {
            &&& crate::fs::mounted(image) == Err::<crate::fs::Mount, Error>(e)
            &&& blocks > 0 ==> crate::fs::device_cache_of(image, blocks) == Err::<
                Option<(u64, usize)>,
                Error,
            >(e)
        },
{
}

/// A metadata block that the image does not hold whole is a short read.
#[verifier::rlimit(60)]
pub proof fn blocks_past_the_end_are_errors(
    image: Seq<u8>,
    compression_id: u16,
    abs: nat,
    header: u16,
)
    ensures
        abs + 2 > image.len() ==> (crate::metablock::block_at(image, compression_id, abs) matches
            Err(Error::Block(_))),
        super::numbers::stands(image, abs as int, super::numbers::bytes16(header)) && 1 <= header
            % 0x8000 <= 8192 && abs + 2 + header % 0x8000 > image.len() ==> (
        crate::metablock::block_at(image, compression_id, abs) matches Err(Error::Block(_))),
{
    reveal(crate::metablock::block_at);
    if super::numbers::stands(image, abs as int, super::numbers::bytes16(header)) {
        super::numbers::lemma_last16(image, abs as int, header);
        assert(crate::bytes::le16(image.subrange(abs as int, abs as int + 2), 0) == header);
    }
}

/// What an attribute's value is made of cannot be left out: a name or a value
/// that cannot be read makes the pair that error, wherever the value stands;
/// one that is too long, or a reference that is none, is refused.
pub proof fn damaged_values_are_errors(
    image: Seq<u8>,
    compression_id: u16,
    table_start: u64,
    s: Stream,
    p: super::xattr::Pair,
    more: Stream,
)
    requires
        p.prefix < 3,
        super::xattr::prefixes()[p.prefix as int].len() + p.suffix.len() <= 255,
        super::metablock::comes_next(
            image,
            compression_id,
            s,
            (super::numbers::bytes16(
                if p.place is Some {
                    (0x100 + p.prefix) as u16
                } else {
                    p.prefix
                },
            ) + super::numbers::bytes16(p.suffix.len() as u16)) + p.suffix,
        ),
        more == super::metablock::behind(image, compression_id, s, 4 + p.suffix.len()),
    ensures
        ({
            let got = crate::xattr::pair_in(image, compression_id, table_start, s);
            match crate::metablock::stream_read(image, compression_id, more, 4) {
                Err(e) => got == Err::<(XattrData, Stream), Error>(e),
                Ok((len, at)) => {
                    let n = crate::bytes::le32(len, 0);
                    &&& p.place is None && n > 65536 ==> (got matches Err(Error::BadMetadata(_)))
                    &&& p.place is None && n <= 65536 ==> (crate::metablock::stream_read(
                        image,
                        compression_id,
                        at,
                        n as nat,
                    ) matches Err(e) ==> got == Err::<(XattrData, Stream), Error>(e))
                    &&& p.place is Some && n != 8 ==> (got matches Err(Error::BadMetadata(_)))
                    &&& p.place is Some && n == 8 ==> (match crate::metablock::stream_read(
                        image,
                        compression_id,
                        at,
                        8,
                    ) {
                        Err(e) => got == Err::<(XattrData, Stream), Error>(e),
                        Ok((target, _)) => {
                            let r = crate::bytes::le64(target, 0);
                            table_start + r / 0x1_0000 <= u64::MAX ==> (
                            crate::metablock::stream_at(
                                image,
                                compression_id,
                                (table_start + r / 0x1_0000) as nat,
                                (r % 0x1_0000) as nat,
                            ) matches Err(e) ==> got == Err::<(XattrData, Stream), Error>(e))
                        },
                    })
                },
            }
        }),
{
    let id = compression_id;
    let n = p.suffix.len() as u16;
    let raw_type = if p.place is Some {
        (0x100 + p.prefix) as u16
    } else {
        p.prefix
    };
    let h = super::numbers::bytes16(raw_type) + super::numbers::bytes16(n);
    super::metablock::lemma_comes_apart(image, id, s, h, p.suffix);
    assert(h.subrange(0, 4) =~= h);
    super::numbers::lemma_field16(h, 0, raw_type, super::numbers::bytes16(n));
    super::numbers::lemma_last16(h, 2, n);
    assert(raw_type % 0x100 == p.prefix);
    assert(crate::xattr::prefix_of(p.prefix)->0 =~= super::xattr::prefixes()[p.prefix as int]);
}

} // verus!
