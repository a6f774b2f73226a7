//! `.xz` streams, as they are written.

use vstd::prelude::*;

use crate::bcj::Bcj;
use crate::error::Error;
use crate::xz::BlockHeader;
use super::numbers::{lemma_stands, lemma_stands_apart};

verus! {

broadcast use {super::numbers::lemma_len32, super::numbers::lemma_len64};

// ---- variable-length integers ----

/// `v` with seven bits in a byte, the lowest first, 128 more in every byte
/// that is not the last.
pub open spec fn varint_bytes(v: nat) -> Seq<u8>
    decreases v,
{
    if v < 128 {
        seq![v as u8]
    } else {
        seq![(128 + v % 128) as u8] + varint_bytes(v / 128)
    }
}

/// One more than the largest integer that `n` bytes hold.
pub open spec fn septets(n: nat) -> nat
    decreases n,
{
    if n == 0 {
        1
    } else {
        128 * septets((n - 1) as nat)
    }
}

proof fn lemma_varint_read(b: Seq<u8>, at: int, v: nat, i: nat)
    requires
        0 <= at,
        i <= 9,
        v < septets((9 - i) as nat),
        i > 0 ==> v > 0,
        super::numbers::stands(b, at, varint_bytes(v)),
    ensures
        crate::xz::varint_tail(b, at, i) == Ok::<(nat, int), Error>(
            (v, at + varint_bytes(v).len()),
        ),
        crate::xz::multibyte_end(b, at, i) == Some(at + varint_bytes(v).len()),
    decreases v,
{
    let w = varint_bytes(v);
    lemma_stands(b, at, w);
    assert(b[at + 0] == w[0]);
    if v >= 128 {
        lemma_stands_apart(b, at, seq![(128 + v % 128) as u8], varint_bytes(v / 128));
        lemma_varint_read(b, at + 1, v / 128, i + 1);
    }
}

proof fn lemma_varint_written(b: Seq<u8>, at: int, v: nat, next: int, i: nat)
    requires
        0 <= at,
        i <= 9,
        crate::xz::varint_tail(b, at, i) == Ok::<(nat, int), Error>((v, next)),
    ensures
        super::numbers::stands(b, at, varint_bytes(v)),
        next == at + varint_bytes(v).len(),
        v < septets((9 - i) as nat),
        i > 0 ==> v > 0,
    decreases 9 - i,
{
    let low = b[at];
    if low >= 0x80 {
        let (high, end) = crate::xz::varint_tail(b, at + 1, i + 1)->Ok_0;
        lemma_varint_written(b, at + 1, high, end, i + 1);
        assert(v % 128 == low - 128 && v / 128 == high);
        assert(b.subrange(at, at + 1) =~= seq![low]);
        lemma_stands_apart(b, at, seq![low], varint_bytes(high));
    } else {
        assert(b.subrange(at, at + 1) =~= varint_bytes(v));
        lemma_septets((9 - i) as nat);
    }
}

proof fn lemma_septets(n: nat)
    requires
        n >= 1,
    ensures
        septets(n) >= 128,
    decreases n,
{
    if n > 1 {
        lemma_septets((n - 1) as nat);
    } else {
        reveal_with_fuel(septets, 2);
    }
}

/// An integer is read back from its bytes, and from no others: none is
/// longer than it needs to be, or than nine bytes.
pub proof fn varint_is_read_back(b: Seq<u8>, at: int, v: nat)
    requires
        0 <= at,
    ensures
        crate::xz::varint_at(b, at) == Ok::<(nat, int), Error>((v, at + varint_bytes(v).len()))
            <==> v < 0x8000_0000_0000_0000 && super::numbers::stands(b, at, varint_bytes(v)),
        crate::xz::varint_at(b, at) matches Ok((w, next)) ==> super::numbers::stands(
            b,
            at,
            varint_bytes(w),
        ) && next == at + varint_bytes(w).len(),
{
    assert(septets(9) == 0x8000_0000_0000_0000) by {
        reveal_with_fuel(septets, 10);
    }
    if v < 0x8000_0000_0000_0000 && super::numbers::stands(b, at, varint_bytes(v)) {
        lemma_varint_read(b, at, v, 0);
    }
    if let Ok((w, next)) = crate::xz::varint_at(b, at) {
        lemma_varint_written(b, at, w, next, 0);
    }
}

/// Reading an integer stops behind its last byte, the first that is below 128;
/// where there is none, behind nine bytes or at the end.
pub proof fn reading_an_integer_stops_behind_it(b: Seq<u8>, at: int)
    requires
        0 <= at <= b.len(),
    ensures
        ({
            let stop = crate::xz::varint_stop(b, at, 0);
            &&& at <= stop <= at + 9
            &&& stop <= b.len()
            &&& forall|k: int| at <= k < stop - 1 ==> #[trigger] b[k] >= 128
            &&& stop == at + 9 || stop == b.len() || (stop > at && b[stop - 1] < 128)
        }),
{
    lemma_varint_stop(b, at, 0);
}

proof fn lemma_varint_stop(b: Seq<u8>, at: int, i: nat)
    requires
        0 <= at <= b.len(),
        i <= 9,
    ensures
        ({
            let stop = crate::xz::varint_stop(b, at, i);
            &&& at <= stop <= at + 9 - i
            &&& stop <= b.len()
            &&& forall|k: int| at <= k < stop - 1 ==> #[trigger] b[k] >= 128
            &&& stop == at + 9 - i || stop == b.len() || (stop > at && b[stop - 1] < 128)
        }),
    decreases 9 - i,
{
    if i < 9 && at < b.len() && b[at] >= 0x80 {
        lemma_varint_stop(b, at + 1, i + 1);
    }
}

/// An integer and what follows it, read one behind the other.
proof fn lemma_varint_then(b: Seq<u8>, at: int, v: nat, rest: Seq<u8>)
    requires
        0 <= at,
        v < 0x8000_0000_0000_0000,
        super::numbers::stands(b, at, varint_bytes(v) + rest),
    ensures
        crate::xz::varint_at(b, at) == Ok::<(nat, int), Error>(
            (v, at + varint_bytes(v).len()),
        ),
        super::numbers::stands(b, at + varint_bytes(v).len(), rest),
{
    lemma_stands_apart(b, at, varint_bytes(v), rest);
    varint_is_read_back(b, at, v);
}

// ---- block headers ----

/// A size that is recorded or left out.
pub open spec fn optional_bytes(size: Option<u64>) -> Seq<u8> {
    match size {
        Some(n) => varint_bytes(n as nat),
        None => Seq::empty(),
    }
}

/// The properties of a converter: where its first byte is, which may be left
/// out where that is zero.
pub open spec fn start_bytes(start: u32, spelled: bool) -> Seq<u8> {
    if spelled {
        varint_bytes(4) + super::numbers::bytes32(start)
    } else {
        varint_bytes(0)
    }
}

/// LZMA2 with its properties.
pub open spec fn lzma2_bytes(props: Seq<u8>) -> Seq<u8> {
    varint_bytes(0x21) + (varint_bytes(props.len()) + props)
}

/// The filters of a block: a converter, if there is one, and LZMA2.
pub open spec fn chain_bytes(bcj: Option<(Bcj, u32)>, spelled: bool, props: Seq<u8>) -> Seq<u8> {
    match bcj {
        Some((kind, start)) => varint_bytes(super::codec::filter_id(kind) as nat) + (start_bytes(
            start,
            spelled,
        ) + lzma2_bytes(props)),
        None => lzma2_bytes(props),
    }
}

/// What follows the flags of a header.
pub open spec fn field_bytes(header: BlockHeader, spelled: bool, props: Seq<u8>) -> Seq<u8> {
    optional_bytes(header.compressed_size) + (optional_bytes(header.uncompressed_size)
        + chain_bytes(header.bcj, spelled, props))
}

/// The flags of a header: how many filters come before the last, and which
/// sizes are recorded.
pub open spec fn header_flags(header: BlockHeader) -> int {
    (if header.bcj is Some {
        1int
    } else {
        0
    }) + (if header.compressed_size is Some {
        64int
    } else {
        0
    }) + (if header.uncompressed_size is Some {
        128int
    } else {
        0
    })
}

/// Whether `body` is `header` as it is written: its length in words, the
/// flags, the fields, and zeros up to that length.
pub open spec fn is_header(body: Seq<u8>, header: BlockHeader, spelled: bool, props: Seq<u8>) -> bool {
    &&& body.len() >= 4
    &&& body.len() == 4 * body[0]
    &&& body[1] == header_flags(header)
    &&& super::numbers::stands(body, 2, field_bytes(header, spelled, props))
    &&& forall|k: int|
        2 + field_bytes(header, spelled, props).len() <= k < body.len() ==> #[trigger] body[k] == 0
    &&& (header.compressed_size matches Some(n) ==> n < 0x8000_0000_0000_0000)
    &&& (header.uncompressed_size matches Some(n) ==> n < 0x8000_0000_0000_0000)
    &&& (header.bcj matches Some((_, start)) ==> spelled || start == 0)
    &&& props.len() < 0x8000_0000_0000_0000
}

proof fn lemma_flags(flags: u8)
    ensures
        flags & 0x3C == 0 <==> (flags / 4) % 16 == 0,
        flags & 0x40 != 0 <==> (flags / 64) % 2 == 1,
        flags & 0x80 != 0 <==> flags / 128 == 1,
        flags & 0x03 == flags % 4,
        flags & 0x0F == flags % 16,
{
    assert((flags & 0x3C == 0 <==> (flags / 4) % 16 == 0) && (flags & 0x40 != 0 <==> (flags / 64)
        % 2 == 1) && (flags & 0x80 != 0 <==> flags / 128 == 1) && flags & 0x03 == flags % 4 && flags
        & 0x0F == flags % 16) by (bit_vector);
}

proof fn lemma_optional(body: Seq<u8>, at: int, size: Option<u64>, rest: Seq<u8>)
    requires
        0 <= at,
        size matches Some(n) ==> n < 0x8000_0000_0000_0000,
        super::numbers::stands(body, at, optional_bytes(size) + rest),
    ensures
        crate::xz::optional_varint(body, at, size is Some) == Ok::<(Option<u64>, int), Error>(
            (size, at + optional_bytes(size).len()),
        ),
        super::numbers::stands(body, at + optional_bytes(size).len(), rest),
{
    lemma_stands_apart(body, at, optional_bytes(size), rest);
    if let Some(n) = size {
        lemma_varint_then(body, at, n as nat, rest);
    }
}

proof fn lemma_lzma2(body: Seq<u8>, at: int, props: Seq<u8>, bcj: Option<(Bcj, u32)>)
    requires
        0 <= at,
        props.len() < 0x8000_0000_0000_0000,
        super::numbers::stands(body, at, lzma2_bytes(props)),
    ensures
        crate::xz::chain_at(body, at, 1, bcj) == Ok::<(Option<(Bcj, u32)>, int), Error>(
            (bcj, at + lzma2_bytes(props).len()),
        ),
{
    lemma_varint_then(body, at, 0x21, varint_bytes(props.len()) + props);
    lemma_varint_then(body, at + varint_bytes(0x21).len(), props.len(), props);
}

#[verifier::rlimit(40)]
proof fn lemma_chain(
    body: Seq<u8>,
    at: int,
    bcj: Option<(Bcj, u32)>,
    spelled: bool,
    props: Seq<u8>,
)
    requires
        0 <= at,
        props.len() < 0x8000_0000_0000_0000,
        super::numbers::stands(body, at, chain_bytes(bcj, spelled, props)),
        bcj matches Some((_, start)) ==> spelled || start == 0,
    ensures
        crate::xz::chain_at(
            body,
            at,
            if bcj is Some {
                2
            } else {
                1
            },
            None,
        ) == Ok::<(Option<(Bcj, u32)>, int), Error>(
            (bcj, at + chain_bytes(bcj, spelled, props).len()),
        ),
{
    if let Some((kind, start)) = bcj {
        let id = super::codec::filter_id(kind);
        let last = lzma2_bytes(props);
        lemma_varint_then(body, at, id as nat, start_bytes(start, spelled) + last);
        let at1 = at + varint_bytes(id as nat).len();
        lemma_stands_apart(body, at1, start_bytes(start, spelled), last);
        let at2 = at1 + start_bytes(start, spelled).len();
        if spelled {
            lemma_varint_then(body, at1, 4, super::numbers::bytes32(start));
            let props_at = at1 + varint_bytes(4).len();
            let props = body.subrange(props_at, props_at + 4);
            assert(props == super::numbers::bytes32(start));
            assert(props.subrange(0, 4) =~= props);
            super::numbers::lemma_last32(props, 0, start);
        } else {
            varint_is_read_back(body, at1, 0);
            assert(body.subrange(at2, at2) =~= Seq::empty());
        }
        super::codec::converters_are_known_by_their_ids(id, kind);
        lemma_lzma2(body, at2, props, bcj);
    } else {
        lemma_lzma2(body, at, props, bcj);
    }
}

/// A header that was written is read back.
pub proof fn header_is_read_back(body: Seq<u8>, header: BlockHeader, spelled: bool, props: Seq<u8>)
    requires
        is_header(body, header, spelled, props),
    ensures
        crate::xz::header_in(body) == Ok::<BlockHeader, Error>(header),
{
    let flags = body[1];
    lemma_flags(flags);
    let tail = chain_bytes(header.bcj, spelled, props);
    let rest = optional_bytes(header.uncompressed_size) + tail;
    lemma_optional(body, 2, header.compressed_size, rest);
    let at1 = 2 + optional_bytes(header.compressed_size).len() as int;
    lemma_optional(body, at1, header.uncompressed_size, tail);
    let at2 = at1 + optional_bytes(header.uncompressed_size).len();
    lemma_chain(body, at2, header.bcj, spelled, props);
    assert(at2 + tail.len() == 2 + field_bytes(header, spelled, props).len());
}

/// The last filter of a chain, read back into what was written.
proof fn lemma_lzma2_back(body: Seq<u8>, at: int, bcj: Option<(Bcj, u32)>, end: int) -> (props: Seq<
    u8,
>)
    requires
        0 <= at,
        crate::xz::chain_at(body, at, 1, bcj) == Ok::<(Option<(Bcj, u32)>, int), Error>((bcj, end)),
    ensures
        props.len() < 0x8000_0000_0000_0000,
        super::numbers::stands(body, at, lzma2_bytes(props)),
        end == at + lzma2_bytes(props).len(),
{
    let (id, after_id) = crate::xz::varint_at(body, at)->Ok_0;
    let (n, props_at) = crate::xz::varint_at(body, after_id)->Ok_0;
    varint_is_read_back(body, at, id);
    varint_is_read_back(body, after_id, n);
    let props = body.subrange(props_at, end);
    assert(super::numbers::stands(body, props_at, props));
    lemma_stands_apart(body, after_id, varint_bytes(n), props);
    lemma_stands_apart(body, at, varint_bytes(id), varint_bytes(n) + props);
    props
}

/// A chain, read back into what was written.
#[verifier::rlimit(40)]
proof fn lemma_chain_back(
    body: Seq<u8>,
    at: int,
    filters: nat,
    bcj: Option<(Bcj, u32)>,
    end: int,
) -> (r: (bool, Seq<u8>))
    requires
        0 <= at,
        1 <= filters <= 4,
        crate::xz::chain_at(body, at, filters, None) == Ok::<(Option<(Bcj, u32)>, int), Error>(
            (bcj, end),
        ),
    ensures
        filters == (if bcj is Some {
            2nat
        } else {
            1
        }),
        r.1.len() < 0x8000_0000_0000_0000,
        super::numbers::stands(body, at, chain_bytes(bcj, r.0, r.1)),
        end == at + chain_bytes(bcj, r.0, r.1).len(),
        bcj matches Some((_, start)) ==> r.0 || start == 0,
{
    reveal_with_fuel(crate::xz::chain_at, 3);
    if filters == 1 {
        (false, lemma_lzma2_back(body, at, bcj, end))
    } else {
        let (id, after_id) = crate::xz::varint_at(body, at)->Ok_0;
        let (n, props_at) = crate::xz::varint_at(body, after_id)->Ok_0;
        varint_is_read_back(body, at, id);
        varint_is_read_back(body, after_id, n);
        let next = props_at + n;
        let start = crate::xz::bcj_start(body.subrange(props_at, next))->Ok_0;
        let kind = crate::bcj::bcj_named(id as u64)->Ok_0;
        super::codec::converters_are_known_by_their_ids(id as u64, kind);
        let some = Some((kind, start));
        assert(crate::xz::chain_at(body, next, (filters - 1) as nat, some) == Ok::<
            (Option<(Bcj, u32)>, int),
            Error,
        >((bcj, end)));
        assert(filters == 2);
        assert(bcj == some);
        let props = lemma_lzma2_back(body, next, some, end);
        let spelled = n == 4;
        let settings = start_bytes(start, spelled);
        if spelled {
            assert(crate::bytes::le32(body.subrange(props_at, next), 0) == crate::bytes::le32(
                body,
                props_at,
            ));
            reveal(super::numbers::holds32);
            super::numbers::number32_is_read_back(body, props_at, start);
            lemma_stands_apart(body, after_id, varint_bytes(4), super::numbers::bytes32(start));
        }
        assert(super::numbers::stands(body, after_id, settings));
        assert(next == after_id + settings.len());
        lemma_stands_apart(body, after_id, settings, lzma2_bytes(props));
        lemma_stands_apart(body, at, varint_bytes(id), settings + lzma2_bytes(props));
        (spelled, props)
    }
}

proof fn lemma_optional_back(body: Seq<u8>, at: int, present: bool, size: Option<u64>, next: int)
    requires
        0 <= at <= body.len(),
        crate::xz::optional_varint(body, at, present) == Ok::<(Option<u64>, int), Error>(
            (size, next),
        ),
    ensures
        present == size is Some,
        size matches Some(n) ==> n < 0x8000_0000_0000_0000,
        super::numbers::stands(body, at, optional_bytes(size)),
        next == at + optional_bytes(size).len(),
        next <= body.len(),
{
    if present {
        let (v, _) = crate::xz::varint_at(body, at)->Ok_0;
        varint_is_read_back(body, at, v);
    } else {
        assert(body.subrange(at, at) =~= Seq::empty());
    }
}

/// A header that is read is one that could have been written: no flag is set
/// that is reserved, no more than one converter comes before LZMA2, which ends
/// the chain, and there are zeros behind it. All other bytes are refused.
pub proof fn other_headers_are_refused(body: Seq<u8>, header: BlockHeader) -> (r: (bool, Seq<u8>))
    requires
        body.len() >= 4,
        body.len() == 4 * body[0],
        crate::xz::header_in(body) == Ok::<BlockHeader, Error>(header),
    ensures
        is_header(body, header, r.0, r.1),
{
    let flags = body[1];
    lemma_flags(flags);
    let (compressed, at1) = crate::xz::optional_varint(body, 2, flags & 0x40 != 0)->Ok_0;
    lemma_optional_back(body, 2, flags & 0x40 != 0, compressed, at1);
    let (uncompressed, at2) = crate::xz::optional_varint(body, at1, flags & 0x80 != 0)->Ok_0;
    lemma_optional_back(body, at1, flags & 0x80 != 0, uncompressed, at2);
    let filters = ((flags & 0x03) + 1) as nat;
    let (bcj, end) = crate::xz::chain_at(body, at2, filters, None)->Ok_0;
    let (spelled, props) = lemma_chain_back(body, at2, filters, bcj, end);
    let tail = chain_bytes(bcj, spelled, props);
    lemma_stands_apart(body, at1, optional_bytes(uncompressed), tail);
    lemma_stands_apart(body, 2, optional_bytes(compressed), optional_bytes(uncompressed) + tail);
    (spelled, props)
}

/// Reserved flags are refused.
pub proof fn reserved_flags_are_refused(body: Seq<u8>)
    requires
        body.len() >= 4,
        (body[1] / 4) % 16 != 0,
    ensures
        crate::xz::header_in(body) matches Err(Error::BadMetadata(_)),
{
    lemma_flags(body[1]);
}

// ---- blocks ----

/// A block of a stream, as a writer has it: its header and how that was
/// written, the LZMA2 payload, and the bytes that were packed.
pub struct Block {
    pub header: BlockHeader,
    pub spelled: bool,
    pub props: Seq<u8>,
    pub body: Seq<u8>,
    pub packed: Seq<u8>,
    pub bytes: Seq<u8>,
}

/// What LZMA2 was given to pack.
pub open spec fn filtered(bcj: Option<(Bcj, u32)>, bytes: Seq<u8>) -> Seq<u8> {
    match bcj {
        Some((kind, start)) => crate::bcj_encode::encoded(kind, start, bytes),
        None => bytes,
    }
}

/// The check of a block: none, a CRC-32 or a CRC-64 of the bytes that were
/// packed.
pub open spec fn check_bytes(check: u8, bytes: Seq<u8>) -> Seq<u8> {
    if check == 1 {
        super::numbers::bytes32(crate::xz::crc32_of(bytes))
    } else if check == 4 {
        super::numbers::bytes64(crate::xz::crc64_of(bytes))
    } else {
        Seq::empty()
    }
}

/// The zeros behind a payload, up to a multiple of four bytes.
pub open spec fn padding(packed: Seq<u8>) -> Seq<u8> {
    super::lzo1x::zeros((if packed.len() % 4 == 0 {
        0
    } else {
        4 - packed.len() % 4
    }) as nat)
}

/// A block as it is written.
pub open spec fn block_bytes(b: Block, check: u8) -> Seq<u8> {
    b.body + (super::numbers::bytes32(crate::xz::crc32_of(b.body)) + (b.packed + (padding(b.packed)
        + check_bytes(check, b.bytes))))
}

/// Whether `b` stands in `stream` at `pos`, its payload one that LZMA2
/// decodes to what was packed.
pub open spec fn is_block(stream: Seq<u8>, pos: int, check: u8, b: Block) -> bool {
    &&& stream.len() <= usize::MAX
    &&& is_header(b.body, b.header, b.spelled, b.props)
    &&& super::numbers::stands(stream, pos, block_bytes(b, check))
    &&& (b.header.compressed_size matches Some(n) ==> n == b.packed.len())
    &&& (b.header.uncompressed_size matches Some(n) ==> n == b.bytes.len())
    &&& (b.header.bcj matches Some((kind, start)) ==> start % crate::bcj_encode::alignment(kind)
        == 0)
    &&& crate::xz::lzma2_decoded(
        if b.header.compressed_size is Some {
            b.packed
        } else {
            stream.skip(pos + b.body.len() + 4)
        },
    ) == (Some(b.packed.len()), filtered(b.header.bcj, b.bytes))
}

/// Where the parts of a block stand, and what is read there.
proof fn lemma_block_parts(stream: Seq<u8>, pos: int, check: u8, b: Block)
    requires
        is_header(b.body, b.header, b.spelled, b.props),
        super::numbers::stands(stream, pos, block_bytes(b, check)),
    ensures
        ({
            let at1 = pos + b.body.len();
            let at2 = at1 + 4;
            let at3 = at2 + b.packed.len();
            let at4 = at3 + padding(b.packed).len();
            let end = at4 + check_bytes(check, b.bytes).len();
            &&& end == pos + block_bytes(b, check).len()
            &&& end <= stream.len()
            &&& 0 <= pos
            &&& stream[pos] == b.body[0]
            &&& stream.subrange(pos, at1) == b.body
            &&& crate::bytes::le32(stream, at1) == crate::xz::crc32_of(b.body)
            &&& stream.subrange(at2, at3) == b.packed
            &&& stream.subrange(at4, end) == check_bytes(check, b.bytes)
            &&& crate::xz::padded_end(pos, at3) == at4
            &&& crate::xz::is_zero_from(stream.take(at4), at3)
        }),
{
    let crc = super::numbers::bytes32(crate::xz::crc32_of(b.body));
    let sum = check_bytes(check, b.bytes);
    let zeros = padding(b.packed);
    let at1 = pos + b.body.len();
    let at2 = at1 + 4;
    let at3 = at2 + b.packed.len();
    let at4 = at3 + zeros.len();
    lemma_stands_apart(stream, pos, b.body, crc + (b.packed + (zeros + sum)));
    lemma_stands_apart(stream, at1, crc, b.packed + (zeros + sum));
    lemma_stands_apart(stream, at2, b.packed, zeros + sum);
    lemma_stands_apart(stream, at3, zeros, sum);
    lemma_stands(stream, pos, b.body);
    assert(stream[pos + 0] == b.body[0]);
    super::numbers::lemma_last32(stream, at1, crate::xz::crc32_of(b.body));
    lemma_stands(stream, at3, zeros);
    assert forall|k: int| at3 <= k < at4 implies #[trigger] stream.take(at4)[k] == 0 by {
        assert(stream[at3 + (k - at3)] == zeros[k - at3]);
    }
}

proof fn lemma_check_passes(check: u8, bytes: Seq<u8>)
    requires
        check == 0 || check == 1 || check == 4,
    ensures
        crate::xz::checked(check, bytes, check_bytes(check, bytes)) == Ok::<(), Error>(()),
        crate::xz::check_len(check) == Ok::<nat, Error>(check_bytes(check, bytes).len()),
{
    let stored = check_bytes(check, bytes);
    assert(stored.subrange(0, stored.len() as int) =~= stored);
    if check == 1 {
        super::numbers::lemma_last32(stored, 0, crate::xz::crc32_of(bytes));
    } else if check == 4 {
        super::numbers::lemma_last64(stored, 0, crate::xz::crc64_of(bytes));
    }
}

proof fn lemma_block_finished(stream: Seq<u8>, pos: int, room: nat, check: u8, b: Block)
    requires
        check == 0 || check == 1 || check == 4,
        is_block(stream, pos, check, b),
        b.bytes.len() <= room,
    ensures
        ({
            let data_start = pos + b.body.len() + 4;
            let made = filtered(b.header.bcj, b.bytes);
            let end = pos + block_bytes(b, check).len();
            let seen = Some((made, b.packed.len()));
            &&& crate::xz::block_after_lzma2(
                stream,
                pos,
                data_start,
                b.header,
                check,
                room,
                true,
                seen,
            ) == Ok::<(Seq<u8>, int), Error>((b.bytes, end))
            &&& crate::xz::block_after_lzma2(
                stream,
                pos,
                data_start,
                b.header,
                check,
                room,
                false,
                seen,
            ) == Ok::<(Seq<u8>, int), Error>((made, end))
            &&& made.len() == b.bytes.len()
        }),
{
    lemma_block_parts(stream, pos, check, b);
    lemma_check_passes(check, b.bytes);
    let made = filtered(b.header.bcj, b.bytes);
    if let Some((kind, start)) = b.header.bcj {
        crate::bcj_encode::decoding_undoes_encoding(kind, start, b.bytes);
        crate::bcj::decoded_keeps_the_length(kind, start, made);
    }
}

/// A block that was written is read back, with the converter undone; where
/// that is not asked for, the block is what LZMA2 was given. The next one
/// starts right behind it.
pub proof fn block_is_read_back(stream: Seq<u8>, pos: int, room: nat, check: u8, b: Block)
    requires
        check == 0 || check == 1 || check == 4,
        is_block(stream, pos, check, b),
        b.bytes.len() <= room,
    ensures
        crate::xz::block_in(stream, pos, room, check, true) == Ok::<(Seq<u8>, int), Error>(
            (b.bytes, pos + block_bytes(b, check).len()),
        ),
        crate::xz::block_in(stream, pos, room, check, false) == Ok::<(Seq<u8>, int), Error>(
            (filtered(b.header.bcj, b.bytes), pos + block_bytes(b, check).len()),
        ),
        block_bytes(b, check).len() >= 4,
{
    lemma_block_parts(stream, pos, check, b);
    header_is_read_back(b.body, b.header, b.spelled, b.props);
    lemma_block_finished(stream, pos, room, check, b);
    let at2 = pos + b.body.len() + 4;
    assert(stream.skip(at2) =~= stream.subrange(at2, stream.len() as int));
    let made = filtered(b.header.bcj, b.bytes);
    assert(crate::xz::whole_block((Some(b.packed.len()), made), room + 1) == Some(
        (made, b.packed.len()),
    ));
}

/// A block that is read could have been written: its header is one and has the
/// check that it should, LZMA2 finds the end of the payload where the header
/// says and gives as many bytes as it says, zeros fill up the payload, and the
/// check behind it is that of the bytes that are given. Any damage to one of
/// these is noticed. A SHA-256 is never taken on trust.
#[verifier::rlimit(40)]
pub proof fn damage_is_noticed(
    stream: Seq<u8>,
    pos: int,
    room: nat,
    check: u8,
    bytes: Seq<u8>,
    next: int,
) -> (b: Block)
    requires
        0 <= pos < stream.len(),
        stream[pos] != 0,
        crate::xz::block_in(stream, pos, room, check, true) == Ok::<(Seq<u8>, int), Error>(
            (bytes, next),
        ),
        check == 0 || check == 1 || check == 4 || check == 10,
    ensures
        check != 10,
        bytes.len() <= room,
        b.bytes == bytes,
        is_header(b.body, b.header, b.spelled, b.props),
        super::numbers::stands(stream, pos, block_bytes(b, check)),
        next == pos + block_bytes(b, check).len(),
        b.header.compressed_size matches Some(n) ==> n == b.packed.len(),
        b.header.uncompressed_size matches Some(n) ==> n == b.bytes.len(),
        ({
            let full = crate::xz::lzma2_decoded(
                if b.header.compressed_size is Some {
                    b.packed
                } else {
                    stream.skip(pos + b.body.len() + 4)
                },
            );
            &&& full.0 == Some(b.packed.len())
            &&& bytes == (match b.header.bcj {
                Some((kind, start)) => crate::bcj::decoded(kind, start, full.1),
                None => full.1,
            })
        }),
{
    let data_start = pos + (stream[pos] + 1) * 4;
    let body = stream.subrange(pos, data_start - 4);
    let header = crate::xz::header_in(body)->Ok_0;
    let (spelled, props) = other_headers_are_refused(body, header);
    let payload = crate::xz::payload_at(stream, data_start, header.compressed_size)->Ok_0;
    let (block, consumed) = crate::xz::whole_block(
        crate::xz::lzma2_decoded(payload),
        room + 1,
    )->0;
    if let Some((kind, start)) = header.bcj {
        crate::bcj::decoded_keeps_the_length(kind, start, block);
    }
    let end = data_start + consumed;
    let packed = stream.subrange(data_start, end);
    let at = crate::xz::padded_end(pos, end);
    let b = Block { header, spelled, props, body, packed, bytes };
    assert(stream.skip(data_start) =~= stream.subrange(data_start, stream.len() as int));
    let crc = super::numbers::bytes32(crate::xz::crc32_of(body));
    let sum = check_bytes(check, bytes);
    let zeros = padding(packed);
    assert(at == end + zeros.len());
    assert(stream.subrange(end, at) =~= zeros) by {
        assert forall|k: int| 0 <= k < zeros.len() implies stream.subrange(end, at)[k]
            == zeros[k] by {
            assert(stream.take(at)[end + k] == 0);
        }
    }
    lemma_check_stands(stream, at, next, check, bytes);
    reveal(super::numbers::holds32);
    super::numbers::number32_is_read_back(stream, data_start - 4, crate::xz::crc32_of(body));
    lemma_stands_apart(stream, end, zeros, sum);
    lemma_stands_apart(stream, data_start, packed, zeros + sum);
    lemma_stands_apart(stream, data_start - 4, crc, packed + (zeros + sum));
    lemma_stands_apart(stream, pos, body, crc + (packed + (zeros + sum)));
    b
}

proof fn lemma_check_stands(stream: Seq<u8>, at: int, next: int, check: u8, bytes: Seq<u8>)
    requires
        0 <= at <= next <= stream.len(),
        check == 0 || check == 1 || check == 4 || check == 10,
        crate::xz::check_len(check) == Ok::<nat, Error>((next - at) as nat),
        crate::xz::checked(check, bytes, stream.subrange(at, next)) is Ok,
    ensures
        check != 10,
        super::numbers::stands(stream, at, check_bytes(check, bytes)),
        next == at + check_bytes(check, bytes).len(),
{
    let stored = stream.subrange(at, next);
    reveal(super::numbers::holds32);
    reveal(super::numbers::holds64);
    super::numbers::number32_is_read_back(stored, 0, crate::xz::crc32_of(bytes));
    super::numbers::number64_is_read_back(stored, 0, crate::xz::crc64_of(bytes));
    assert(stored.subrange(0, stored.len() as int) =~= stored);
    assert(check == 0 ==> stored =~= Seq::empty());
}

/// A kind of check that does not exist is refused.
pub proof fn other_checks_are_refused(stream: Seq<u8>, max_out: nat, run_filter: bool)
    requires
        stream.len() >= 12,
        ({
            let check = stream[7] % 16;
            check != 0 && check != 1 && check != 4 && check != 10
        }),
    ensures
        crate::xz::stream_decoded(stream, max_out, run_filter) matches Err(Error::BadMetadata(_)),
{
    lemma_flags(stream[7]);
}

// ---- streams ----

/// How a stream with the given check starts.
pub open spec fn stream_header(check: u8) -> Seq<u8> {
    seq![0xFDu8, 0x37, 0x7A, 0x58, 0x5A, 0] + (seq![0u8, check] + super::numbers::bytes32(
        crate::xz::crc32_of(seq![0u8, check]),
    ))
}

/// Whether `blocks` stand in `stream` one behind the other from `pos` on, and
/// the index behind them.
pub open spec fn is_run(stream: Seq<u8>, pos: int, check: u8, blocks: Seq<Block>) -> bool
    decreases blocks.len(),
{
    if blocks.len() == 0 {
        0 <= pos < stream.len() && stream[pos] == 0
    } else {
        is_block(stream, pos, check, blocks[0]) && is_run(
            stream,
            pos + block_bytes(blocks[0], check).len(),
            check,
            blocks.drop_first(),
        )
    }
}

/// What was packed into `blocks`.
pub open spec fn all_packed(blocks: Seq<Block>) -> Seq<u8>
    decreases blocks.len(),
{
    if blocks.len() == 0 {
        Seq::empty()
    } else {
        blocks[0].bytes + all_packed(blocks.drop_first())
    }
}

proof fn lemma_run_read(
    stream: Seq<u8>,
    pos: int,
    out: Seq<u8>,
    max_out: nat,
    check: u8,
    blocks: Seq<Block>,
)
    requires
        check == 0 || check == 1 || check == 4,
        is_run(stream, pos, check, blocks),
        out.len() + all_packed(blocks).len() <= max_out,
    ensures
        crate::xz::blocks_from(stream, pos, out, max_out, check, true) == Ok::<Seq<u8>, Error>(
            out + all_packed(blocks),
        ),
    decreases blocks.len(),
{
    if blocks.len() == 0 {
        assert(out + all_packed(blocks) =~= out);
    } else {
        let b = blocks[0];
        let next = pos + block_bytes(b, check).len();
        block_is_read_back(stream, pos, (max_out - out.len()) as nat, check, b);
        lemma_first_byte(stream, pos, check, b);
        lemma_run_read(stream, next, out + b.bytes, max_out, check, blocks.drop_first());
        assert((out + b.bytes) + all_packed(blocks.drop_first()) =~= out + all_packed(blocks));
    }
}

proof fn lemma_first_byte(stream: Seq<u8>, pos: int, check: u8, b: Block)
    requires
        is_block(stream, pos, check, b),
    ensures
        0 <= pos,
        pos + 4 <= stream.len(),
        stream[pos] == b.body[0],
        stream[pos] != 0,
        stream[pos + 1] == b.body[1],
{
    let all = block_bytes(b, check);
    lemma_stands(stream, pos, all);
    assert(stream[pos + 0] == all[0] && stream[pos + 1] == all[1]);
}

proof fn lemma_stream_header(stream: Seq<u8>, check: u8)
    requires
        super::numbers::stands(stream, 0, stream_header(check)),
    ensures
        stream.len() >= 12,
        crate::xz::has_magic(stream),
        stream.subrange(6, 8) == seq![0u8, check],
        stream[6] == 0,
        stream[7] == check,
        crate::bytes::le32(stream, 8) == crate::xz::crc32_of(seq![0u8, check]),
{
    let magic = seq![0xFDu8, 0x37, 0x7A, 0x58, 0x5A, 0];
    let flags = seq![0u8, check];
    let crc = super::numbers::bytes32(crate::xz::crc32_of(flags));
    lemma_stands_apart(stream, 0, magic, flags + crc);
    lemma_stands_apart(stream, 6, flags, crc);
    lemma_stands(stream, 0, magic);
    lemma_stands(stream, 6, flags);
    assert(stream[0int + 0] == magic[0] && stream[0int + 1] == magic[1] && stream[0int + 2]
        == magic[2] && stream[0int + 3] == magic[3] && stream[0int + 4] == magic[4] && stream[0int
        + 5] == magic[5]);
    assert(stream[6int + 0] == flags[0] && stream[6int + 1] == flags[1]);
    super::numbers::lemma_last32(stream, 8, crate::xz::crc32_of(flags));
}

/// A stream that was written is read back, however many blocks it has.
pub proof fn stream_is_read_back(stream: Seq<u8>, check: u8, blocks: Seq<Block>, max_out: nat)
    requires
        check == 0 || check == 1 || check == 4,
        super::numbers::stands(stream, 0, stream_header(check)),
        is_run(stream, 12, check, blocks),
        all_packed(blocks).len() <= max_out,
    ensures
        crate::xz::stream_decoded(stream, max_out, true) == Ok::<Seq<u8>, Error>(
            all_packed(blocks),
        ),
{
    lemma_stream_header(stream, check);
    lemma_flags(check);
    lemma_run_read(stream, 12, Seq::empty(), max_out, check, blocks);
    assert(Seq::<u8>::empty() + all_packed(blocks) =~= all_packed(blocks));
}

/// A stream counts as filtered where its first block has a converter.
pub proof fn streams_are_told_by_their_first_block(stream: Seq<u8>, check: u8, blocks: Seq<Block>)
    requires
        super::numbers::stands(stream, 0, stream_header(check)),
        is_run(stream, 12, check, blocks),
    ensures
        crate::xz::is_filtered(stream) <==> blocks.len() > 0 && blocks[0].header.bcj is Some,
{
    lemma_stream_header(stream, check);
    if blocks.len() > 0 {
        lemma_first_byte(stream, 12, check, blocks[0]);
        lemma_flags(blocks[0].body[1]);
    }
}

/// A stream whose blocks have no converter is left to the codec, and one whose
/// first block has one is decoded here.
pub proof fn filtered_streams_are_read_back(
    stream: Seq<u8>,
    check: u8,
    blocks: Seq<Block>,
    max_out: nat,
)
    requires
        check == 0 || check == 1 || check == 4,
        super::numbers::stands(stream, 0, stream_header(check)),
        is_run(stream, 12, check, blocks),
        blocks.len() > 0,
        blocks[0].header.bcj is Some,
        all_packed(blocks).len() <= max_out,
    ensures
        crate::decompress::decompressed(crate::decompress::Compressor::Xz, stream, max_out) == Ok::<
            Seq<u8>,
            Error,
        >(all_packed(blocks)),
{
    streams_are_told_by_their_first_block(stream, check, blocks);
    stream_is_read_back(stream, check, blocks, max_out);
}

/// A stream that stops before its index is refused, whatever came before.
pub proof fn streams_without_an_index_are_refused(
    stream: Seq<u8>,
    pos: int,
    out: Seq<u8>,
    max_out: nat,
    check: u8,
    run_filter: bool,
)
    requires
        pos >= stream.len(),
    ensures
        crate::xz::blocks_from(stream, pos, out, max_out, check, run_filter) matches Err(
            Error::BadMetadata(_),
        ),
{
}

/// A stream that does not start as one is refused.
pub proof fn other_starts_are_refused(stream: Seq<u8>, max_out: nat, run_filter: bool)
    requires
        stream.len() < 12 || forall|check: u8|
            check < 16 ==> !#[trigger] super::numbers::stands(stream, 0, stream_header(check)),
        stream.len() >= 12 ==> stream[7] < 16,
    ensures
        crate::xz::stream_decoded(stream, max_out, run_filter) matches Err(Error::BadMetadata(_)),
{
    if stream.len() >= 12 && crate::xz::has_magic(stream) && stream[6] == 0
        && crate::xz::crc32_of(stream.subrange(6, 8)) == crate::bytes::le32(stream, 8) {
        let check = stream[7];
        let flags = seq![0u8, check];
        assert(stream.subrange(6, 8) =~= flags);
        reveal(super::numbers::holds32);
        super::numbers::number32_is_read_back(stream, 8, crate::xz::crc32_of(flags));
        let crc = super::numbers::bytes32(crate::xz::crc32_of(flags));
        lemma_stands_apart(stream, 6, flags, crc);
        let magic = seq![0xFDu8, 0x37, 0x7A, 0x58, 0x5A, 0];
        assert(stream.subrange(0, 6) =~= magic);
        lemma_stands_apart(stream, 0, magic, flags + crc);
        assert(super::numbers::stands(stream, 0, stream_header(check)));
    }
}

// ---- the index ----

/// Integers one behind the other.
pub open spec fn all_varints(v: Seq<nat>) -> Seq<u8>
    decreases v.len(),
{
    if v.len() == 0 {
        Seq::empty()
    } else {
        varint_bytes(v[0]) + all_varints(v.drop_first())
    }
}

proof fn lemma_varints_end(b: Seq<u8>, at: int, v: Seq<nat>)
    requires
        0 <= at,
        forall|k: int| 0 <= k < v.len() ==> #[trigger] v[k] < 0x8000_0000_0000_0000,
        super::numbers::stands(b, at, all_varints(v)),
    ensures
        crate::xz::multibytes_end(b, at, v.len()) == Some(at + all_varints(v).len()),
    decreases v.len(),
{
    if v.len() > 0 {
        lemma_stands_apart(b, at, varint_bytes(v[0]), all_varints(v.drop_first()));
        assert(septets(9) == 0x8000_0000_0000_0000) by {
            reveal_with_fuel(septets, 10);
        }
        lemma_varint_read(b, at, v[0], 0);
        lemma_varints_end(b, at + varint_bytes(v[0]).len(), v.drop_first());
    }
}

/// Whether the blocks from `pos` on are followed by the index, each payload
/// one that LZMA2 finds the end of by itself.
pub open spec fn ends_are_found(
    stream: Seq<u8>,
    pos: int,
    check: u8,
    blocks: Seq<Block>,
) -> bool
    decreases blocks.len(),
{
    blocks.len() > 0 ==> {
        &&& crate::xz::lzma2_decoded(stream.skip(pos + blocks[0].body.len() + 4)) == (
            Some(blocks[0].packed.len()),
            filtered(blocks[0].header.bcj, blocks[0].bytes),
        )
        &&& blocks[0].bytes.len() <= isize::MAX
        &&& ends_are_found(
            stream,
            pos + block_bytes(blocks[0], check).len(),
            check,
            blocks.drop_first(),
        )
    }
}

/// How many bytes the blocks without a converter hold.
pub open spec fn plain_len(blocks: Seq<Block>) -> nat
    decreases blocks.len(),
{
    if blocks.len() == 0 {
        0
    } else {
        plain_len(blocks.drop_first()) + if blocks[0].header.bcj is None {
            blocks[0].bytes.len()
        } else {
            0
        }
    }
}

/// How long `blocks` are as they are written.
pub open spec fn run_len(check: u8, blocks: Seq<Block>) -> nat
    decreases blocks.len(),
{
    if blocks.len() == 0 {
        0
    } else {
        block_bytes(blocks[0], check).len() + run_len(check, blocks.drop_first())
    }
}

#[verifier::rlimit(40)]
proof fn lemma_index_found(
    stream: Seq<u8>,
    pos: int,
    check: u8,
    seen: nat,
    blocks: Seq<Block>,
    room: nat,
)
    requires
        check == 0 || check == 1 || check == 4,
        is_run(stream, pos, check, blocks),
        ends_are_found(stream, pos, check, blocks),
        plain_len(blocks) <= room,
        0 <= pos,
    ensures
        crate::xz::index_at(
            stream,
            pos,
            crate::xz::check_len(check)->Ok_0,
            seen,
            room,
        ) == Some((pos + run_len(check, blocks), seen + blocks.len())),
    decreases blocks.len(),
{
    if blocks.len() > 0 {
        let b = blocks[0];
        let next = pos + block_bytes(b, check).len();
        lemma_first_byte(stream, pos, check, b);
        lemma_flags(b.body[1]);
        let left = if b.header.bcj is None {
            (room - b.bytes.len()) as nat
        } else {
            room
        };
        lemma_check_passes(check, b.bytes);
        lemma_block_parts(stream, pos, check, b);
        if let Some((kind, start)) = b.header.bcj {
            let made = filtered(b.header.bcj, b.bytes);
            crate::bcj_encode::decoding_undoes_encoding(kind, start, b.bytes);
            crate::bcj::decoded_keeps_the_length(kind, start, made);
        }
        lemma_index_found(
            stream,
            next,
            check,
            seen + 1,
            blocks.drop_first(),
            left,
        );
        let data_start = pos + b.body.len() + 4;
        assert(crate::xz::padded_end(pos, data_start + b.packed.len()) == data_start
            + b.packed.len() + padding(b.packed).len());
    }
}

/// The backward size of a stream is found behind its blocks and its index:
/// the number of blocks, two sizes for each, zeros up to a multiple of four
/// bytes, a check, and that of the footer.
pub proof fn backward_size_is_found(
    stream: Seq<u8>,
    check: u8,
    blocks: Seq<Block>,
    sizes: Seq<nat>,
    size: u32,
    room: nat,
)
    requires
        check == 0 || check == 1 || check == 4,
        super::numbers::stands(stream, 0, stream_header(check)),
        is_run(stream, 12, check, blocks),
        ends_are_found(stream, 12, check, blocks),
        plain_len(blocks) <= room,
        sizes.len() == 1 + 2 * blocks.len(),
        forall|k: int| 0 <= k < sizes.len() ==> #[trigger] sizes[k] < 0x8000_0000_0000_0000,
        super::numbers::stands(
            stream,
            12 + run_len(check, blocks) as int,
            seq![0u8] + all_varints(sizes) + padding(seq![0u8] + all_varints(sizes)),
        ),
        super::numbers::stands(
            stream,
            12 + run_len(check, blocks) as int + (seq![0u8] + all_varints(sizes) + padding(
                seq![0u8] + all_varints(sizes),
            )).len() + 8,
            super::numbers::bytes32(size),
        ),
    ensures
        crate::xz::backward_size(stream, room) == Some(size),
{
    lemma_stream_header(stream, check);
    lemma_flags(check);
    lemma_index_found(stream, 12, check, 0, blocks, room);
    let at = 12 + run_len(check, blocks) as int;
    let index = seq![0u8] + all_varints(sizes);
    lemma_stands_apart(stream, at, index, padding(index));
    lemma_stands_apart(stream, at, seq![0u8], all_varints(sizes));
    lemma_varints_end(stream, at + 1, sizes);
    let word = at + (index + padding(index)).len() + 8;
    assert(crate::xz::padded_end(at, at + index.len()) + 8 == word);
    super::numbers::lemma_last32(stream, word, size);
}

/// A stream whose footer was written says that its index is as long as can be
/// said where that is all ones, and nowhere else.
pub proof fn boundless_footers_are_told(
    stream: Seq<u8>,
    check: u8,
    blocks: Seq<Block>,
    sizes: Seq<nat>,
    size: u32,
)
    requires
        check == 0 || check == 1 || check == 4,
        super::numbers::stands(stream, 0, stream_header(check)),
        is_run(stream, 12, check, blocks),
        ends_are_found(stream, 12, check, blocks),
        sizes.len() == 1 + 2 * blocks.len(),
        forall|k: int| 0 <= k < sizes.len() ==> #[trigger] sizes[k] < 0x8000_0000_0000_0000,
        super::numbers::stands(
            stream,
            12 + run_len(check, blocks) as int,
            seq![0u8] + all_varints(sizes) + padding(seq![0u8] + all_varints(sizes)),
        ),
        super::numbers::stands(
            stream,
            12 + run_len(check, blocks) as int + (seq![0u8] + all_varints(sizes) + padding(
                seq![0u8] + all_varints(sizes),
            )).len() + 8,
            super::numbers::bytes32(size),
        ),
    ensures
        crate::xz::is_boundless(stream) <==> size == 0xFFFF_FFFF,
{
    let room = plain_len(blocks);
    backward_size_is_found(stream, check, blocks, sizes, size, room);
    if crate::xz::is_boundless(stream) {
        let other = choose|room: nat| #[trigger]
            crate::xz::backward_size(stream, room) == Some(0xFFFF_FFFFu32);
        if other <= room {
            crate::xz::backward_size_with_more_room(stream, other, room);
        } else {
            crate::xz::backward_size_with_more_room(stream, room, other);
        }
    }
}

// ---- the CRC-64 ----

proof fn lemma_crc64_step(x: u64, y: u64, r: u64, a: u8, b: u8)
    ensures
        x != y ==> crate::xz::crc64_bit(x) != crate::xz::crc64_bit(y),
        x != y ==> x ^ (a as u64) != y ^ (a as u64),
        a != b ==> r ^ (a as u64) != r ^ (b as u64),
        x != y ==> !x != !y,
{
    let sx = crate::xz::crc64_bit(x);
    let sy = crate::xz::crc64_bit(y);
    assert((x != y ==> sx != sy) && (x != y ==> x ^ (a as u64) != y ^ (a as u64)) && (a != b ==> r
        ^ (a as u64) != r ^ (b as u64)) && (x != y ==> !x != !y)) by (bit_vector)
        requires
            sx == (if x & 1 != 0 {
                (x >> 1) ^ 0xC96C_5795_D787_0F42
            } else {
                x >> 1
            }),
            sy == (if y & 1 != 0 {
                (y >> 1) ^ 0xC96C_5795_D787_0F42
            } else {
                y >> 1
            }),
    ;
}

proof fn lemma_crc64_steps(x: u64, y: u64, n: nat)
    requires
        x != y,
    ensures
        crate::xz::crc64_bits(x, n) != crate::xz::crc64_bits(y, n),
    decreases n,
{
    if n > 0 {
        lemma_crc64_step(x, y, 0, 0, 0);
        lemma_crc64_steps(crate::xz::crc64_bit(x), crate::xz::crc64_bit(y), (n - 1) as nat);
    }
}

proof fn lemma_crc64_register(data: Seq<u8>, i: int, b: u8)
    requires
        0 <= i < data.len(),
        b != data[i],
    ensures
        crate::xz::crc64_register(data.update(i, b)) != crate::xz::crc64_register(data),
    decreases data.len(),
{
    let other = data.update(i, b);
    let x = crate::xz::crc64_register(data.drop_last());
    let y = crate::xz::crc64_register(other.drop_last());
    lemma_crc64_step(x, y, x, data.last(), other.last());
    if i == data.len() - 1 {
        assert(other.drop_last() =~= data.drop_last());
    } else {
        assert(other.drop_last() =~= data.drop_last().update(i, b));
        lemma_crc64_register(data.drop_last(), i, b);
    }
    lemma_crc64_steps(x ^ (data.last() as u64), y ^ (other.last() as u64), 8);
}

/// A single byte that differs, anywhere, makes for another CRC-64.
pub proof fn changed_bytes_are_noticed(data: Seq<u8>, i: int, b: u8)
    requires
        0 <= i < data.len(),
        b != data[i],
    ensures
        crate::xz::crc64_of(data.update(i, b)) != crate::xz::crc64_of(data),
{
    lemma_crc64_register(data, i, b);
    lemma_crc64_step(
        crate::xz::crc64_register(data.update(i, b)),
        crate::xz::crc64_register(data),
        0,
        0,
        0,
    );
}

} // verus!
