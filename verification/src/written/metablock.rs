//! Metadata blocks, as they are written.

use vstd::prelude::*;

use crate::decompress::Compressor;
use crate::error::Error;
use crate::metablock::{MetadataRef, Stream};
use super::numbers::{lemma_stands_apart, number16_is_read_back};

verus! {

broadcast use {
    super::numbers::lemma_len16,
    super::numbers::lemma_len32,
    super::numbers::lemma_len64,
};

/// A block that is stored as it is: its length with the top bit set, and its
/// bytes.
pub open spec fn stored_block(payload: Seq<u8>) -> Seq<u8> {
    super::numbers::bytes16((0x8000 + payload.len()) as u16) + payload
}

/// A block that is compressed: the length of what it was compressed to, and
/// that.
pub open spec fn packed_block(packed: Seq<u8>) -> Seq<u8> {
    super::numbers::bytes16(packed.len() as u16) + packed
}

/// A block that was stored as it is is read back, and the next one follows it.
#[verifier::rlimit(60)]
pub proof fn stored_block_is_read_back(
    image: Seq<u8>,
    compression_id: u16,
    abs: nat,
    payload: Seq<u8>,
)
    requires
        1 <= payload.len() <= 8192,
        super::numbers::stands(image, abs as int, stored_block(payload)),
    ensures
        crate::metablock::block_at(image, compression_id, abs) == Ok::<(Seq<u8>, nat), Error>(
            (payload, abs + 2 + payload.len()),
        ),
{
    lemma_block(image, compression_id, abs, (0x8000 + payload.len()) as u16, payload);
}

/// A block that was compressed is read back by the decoder of the image's own
/// compressor, in at most 8 KiB, and the next one follows it.
#[verifier::rlimit(60)]
pub proof fn packed_block_is_read_back(
    image: Seq<u8>,
    compression_id: u16,
    comp: Compressor,
    abs: nat,
    packed: Seq<u8>,
)
    requires
        1 <= packed.len() <= 8192,
        crate::decompress::compressor_of(compression_id) == Ok::<Compressor, Error>(comp),
        super::numbers::stands(image, abs as int, packed_block(packed)),
    ensures
        crate::metablock::block_at(image, compression_id, abs) == (
        match crate::decompress::decompressed(comp, packed, 8192) {
            Ok(bytes) => Ok((bytes, abs + 2 + packed.len())),
            Err(e) => Err(e),
        }),
{
    lemma_block(image, compression_id, abs, packed.len() as u16, packed);
}

/// A block is what its header and its payload make it.
#[verifier::rlimit(60)]
pub proof fn lemma_block(
    image: Seq<u8>,
    compression_id: u16,
    abs: nat,
    header: u16,
    payload: Seq<u8>,
)
    requires
        1 <= payload.len() <= 8192,
        header % 0x8000 == payload.len(),
        super::numbers::stands(image, abs as int, super::numbers::bytes16(header) + payload),
    ensures
        crate::metablock::block_at(image, compression_id, abs) == (
        match crate::metablock::payload_bytes(compression_id, header, payload) {
            Ok(bytes) => Ok((bytes, abs + 2 + payload.len())),
            Err(e) => Err(e),
        }),
{
    reveal(crate::metablock::block_at);
    lemma_header(image, abs as int, header, payload);
}

proof fn lemma_header(image: Seq<u8>, abs: int, header: u16, payload: Seq<u8>)
    requires
        0 <= abs,
        super::numbers::stands(image, abs, super::numbers::bytes16(header) + payload),
    ensures
        abs + 2 + payload.len() <= image.len(),
        crate::bytes::le16(image.subrange(abs, abs + 2), 0) == header,
        image.subrange(abs + 2, abs + 2 + payload.len()) == payload,
{
    lemma_stands_apart(image, abs, super::numbers::bytes16(header), payload);
    reveal(super::numbers::holds16);
    number16_is_read_back(image, abs, header);
}

/// A block whose length is 0 or more than 8 KiB is refused.
#[verifier::rlimit(60)]
pub proof fn other_lengths_are_refused(image: Seq<u8>, compression_id: u16, abs: nat, header: u16)
    requires
        super::numbers::stands(image, abs as int, super::numbers::bytes16(header)),
        header % 0x8000 == 0 || header % 0x8000 > 8192,
    ensures
        crate::metablock::block_at(image, compression_id, abs) matches Err(Error::BadMetadata(_)),
{
    reveal(crate::metablock::block_at);
    assert(super::numbers::bytes16(header) + Seq::<u8>::empty() =~= super::numbers::bytes16(
        header,
    ));
    lemma_header(image, abs as int, header, Seq::empty());
}

/// Whether `blocks`, decompressed, stand one behind the other from `abs` on.
pub open spec fn is_run(image: Seq<u8>, compression_id: u16, abs: nat, blocks: Seq<Seq<u8>>) -> bool
    decreases blocks.len(),
{
    blocks.len() > 0 ==> {
        &&& blocks[0].len() > 0
        &&& crate::metablock::block_at(image, compression_id, abs) matches Ok((bytes, next))
        &&& bytes == blocks[0]
        &&& is_run(image, compression_id, next, blocks.drop_first())
    }
}

/// What blocks hold, joined.
pub open spec fn joined(blocks: Seq<Seq<u8>>) -> Seq<u8>
    decreases blocks.len(),
{
    if blocks.len() == 0 {
        Seq::empty()
    } else {
        blocks[0] + joined(blocks.drop_first())
    }
}

proof fn lemma_run(
    image: Seq<u8>,
    compression_id: u16,
    at: Stream,
    blocks: Seq<Seq<u8>>,
    n: nat,
)
    requires
        is_run(image, compression_id, at.next_abs, blocks),
        n <= at.rest.len() + joined(blocks).len(),
    ensures
        crate::metablock::stream_read(image, compression_id, at, n) matches Ok((bytes, _)) && bytes
            == (at.rest + joined(blocks)).take(n as int),
    decreases blocks.len(),
{
    let all = at.rest + joined(blocks);
    if at.rest.len() >= n {
        assert(all.take(n as int) =~= at.rest.take(n as int));
    } else {
        let (bytes, next) = crate::metablock::block_at(
            image,
            compression_id,
            at.next_abs,
        )->Ok_0;
        let pulled = Stream { next_abs: next, rest: at.rest + bytes };
        assert(pulled.rest + joined(blocks.drop_first()) =~= all);
        crate::metablock::block_ends_behind_its_start(image, compression_id, at.next_abs);
        lemma_run(image, compression_id, pulled, blocks.drop_first(), n);
    }
}

/// A record that was written across a run of blocks is read back whole, from
/// any place in the first of them.
pub proof fn record_is_read_back(
    image: Seq<u8>,
    compression_id: u16,
    abs: nat,
    in_block: nat,
    blocks: Seq<Seq<u8>>,
    n: nat,
)
    requires
        blocks.len() > 0,
        is_run(image, compression_id, abs, blocks),
        in_block <= blocks[0].len(),
        in_block + n <= joined(blocks).len(),
    ensures
        crate::metablock::stream_at(image, compression_id, abs, in_block) matches Ok(s) && (
        crate::metablock::stream_read(image, compression_id, s, n) matches Ok((bytes, _)) && bytes
            == joined(blocks).subrange(in_block as int, (in_block + n) as int)),
{
    let s = crate::metablock::stream_at(image, compression_id, abs, in_block)->Ok_0;
    let rest = blocks.drop_first();
    lemma_run(image, compression_id, s, rest, n);
    assert((s.rest + joined(rest)).take(n as int) =~= joined(blocks).subrange(
        in_block as int,
        (in_block + n) as int,
    ));
}

/// A reference is read as the place it was made for: so many bytes into the
/// block that starts so far behind its table. A place that no device has
/// stands for all that are further.
pub proof fn references_lead_to_their_place(table: u64, block: u64, in_block: u16)
    requires
        block < 0x1_0000_0000_0000,
    ensures
        ({
            let r = MetadataRef::unpacked((block * 0x1_0000 + in_block) as u64);
            &&& r.in_block == in_block
            &&& table + block <= u64::MAX ==> r.absolute(table) == table + block
            &&& table + block > u64::MAX ==> r.absolute(table) == u64::MAX
        }),
{
}

/// What stands next in a stream.
pub open spec fn comes_next(image: Seq<u8>, compression_id: u16, s: Stream, bytes: Seq<u8>) -> bool {
    crate::metablock::stream_read(image, compression_id, s, bytes.len()) matches Ok((b, _)) && b
        == bytes
}

/// The stream behind what comes next.
pub open spec fn behind(image: Seq<u8>, compression_id: u16, s: Stream, n: nat) -> Stream {
    (crate::metablock::stream_read(image, compression_id, s, n)->Ok_0).1
}

/// Where two pieces come next, the first does, and behind it the second.
pub proof fn lemma_comes_apart(
    image: Seq<u8>,
    compression_id: u16,
    s: Stream,
    first: Seq<u8>,
    second: Seq<u8>,
)
    requires
        comes_next(image, compression_id, s, first + second),
    ensures
        comes_next(image, compression_id, s, first),
        comes_next(
            image,
            compression_id,
            behind(image, compression_id, s, first.len()),
            second,
        ),
        behind(
            image,
            compression_id,
            behind(image, compression_id, s, first.len()),
            second.len(),
        ) == behind(image, compression_id, s, (first + second).len()),
{
    let mid = behind(image, compression_id, s, first.len());
    crate::metablock::stream_read_in_pieces(
        image,
        compression_id,
        s,
        first.len(),
        second.len(),
    );
    crate::metablock::stream_read_gives_all(image, compression_id, s, first.len());
    let a = (crate::metablock::stream_read(image, compression_id, s, first.len())->Ok_0).0;
    let b = (crate::metablock::stream_read(image, compression_id, mid, second.len())->Ok_0).0;
    let whole = first + second;
    assert(a + b == whole);
    assert(a =~= whole.take(first.len() as int));
    assert(first =~= whole.take(first.len() as int));
    assert(b =~= (a + b).skip(first.len() as int));
    assert(second =~= whole.skip(first.len() as int));
}

} // verus!
