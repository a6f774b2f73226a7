//! Numbers, as they are written: the low byte first.

use vstd::prelude::*;

verus! {

/// The two bytes of `v`.
#[verifier::opaque]
pub open spec fn bytes16(v: u16) -> Seq<u8> {
    seq![(v % 0x100) as u8, (v / 0x100) as u8]
}

/// The four bytes of `v`.
#[verifier::opaque]
pub open spec fn bytes32(v: u32) -> Seq<u8> {
    seq![
        (v % 0x100) as u8,
        ((v / 0x100) % 0x100) as u8,
        ((v / 0x1_0000) % 0x100) as u8,
        (v / 0x100_0000) as u8,
    ]
}

/// The eight bytes of `v`.
#[verifier::opaque]
pub open spec fn bytes64(v: u64) -> Seq<u8> {
    bytes32((v % 0x1_0000_0000) as u32) + bytes32((v / 0x1_0000_0000) as u32)
}

/// A 16-bit number takes two bytes.
pub broadcast proof fn lemma_len16(v: u16)
    ensures
        #[trigger] bytes16(v).len() == 2,
{
    reveal(bytes16);
}

/// A 32-bit number takes four bytes.
pub broadcast proof fn lemma_len32(v: u32)
    ensures
        #[trigger] bytes32(v).len() == 4,
{
    reveal(bytes32);
}

/// A 64-bit number takes eight bytes.
pub broadcast proof fn lemma_len64(v: u64)
    ensures
        #[trigger] bytes64(v).len() == 8,
{
    reveal(bytes32);
    reveal(bytes64);
}

/// Whether `piece` stands in `b` from `at` on.
pub open spec fn stands(b: Seq<u8>, at: int, piece: Seq<u8>) -> bool {
    0 <= at && at + piece.len() <= b.len() && b.subrange(at, at + piece.len()) == piece
}

/// Whether the bytes of `v` stand in `b` at `at`.
#[verifier::opaque]
pub open spec fn holds16(b: Seq<u8>, at: int, v: u16) -> bool {
    stands(b, at, bytes16(v))
}

/// Whether the bytes of `v` stand in `b` at `at`.
#[verifier::opaque]
pub open spec fn holds32(b: Seq<u8>, at: int, v: u32) -> bool {
    stands(b, at, bytes32(v))
}

/// Whether the bytes of `v` stand in `b` at `at`.
#[verifier::opaque]
pub open spec fn holds64(b: Seq<u8>, at: int, v: u64) -> bool {
    stands(b, at, bytes64(v))
}

/// Bytes that stand somewhere are found one by one.
pub proof fn lemma_stands(b: Seq<u8>, at: int, piece: Seq<u8>)
    requires
        stands(b, at, piece),
    ensures
        forall|k: int| 0 <= k < piece.len() ==> #[trigger] b[at + k] == piece[k],
{
    assert forall|k: int| 0 <= k < piece.len() implies #[trigger] b[at + k] == piece[k] by {
        assert(b.subrange(at, at + piece.len())[k] == b[at + k]);
    }
}

/// What stands in a part of `b` stands in `b`.
pub proof fn lemma_stands_within(b: Seq<u8>, at: int, whole: Seq<u8>, from: int, piece: Seq<u8>)
    requires
        stands(b, at, whole),
        stands(whole, from, piece),
    ensures
        stands(b, at + from, piece),
{
    assert(b.subrange(at + from, at + from + piece.len()) =~= b.subrange(
        at,
        at + whole.len(),
    ).subrange(from, from + piece.len()));
}

/// Where two pieces stand one behind the other, each stands in its place.
pub proof fn lemma_stands_apart(b: Seq<u8>, at: int, first: Seq<u8>, second: Seq<u8>)
    ensures
        stands(b, at, first + second) <==> stands(b, at, first) && stands(
            b,
            at + first.len(),
            second,
        ),
{
    let whole = first + second;
    let mid = at + first.len();
    let end = mid + second.len();
    if stands(b, at, whole) {
        assert(b.subrange(at, mid) =~= b.subrange(at, end).subrange(0, first.len() as int));
        assert(whole.subrange(0, first.len() as int) =~= first);
        assert(b.subrange(mid, end) =~= b.subrange(at, end).subrange(
            first.len() as int,
            whole.len() as int,
        ));
        assert(whole.subrange(first.len() as int, whole.len() as int) =~= second);
    }
    if stands(b, at, first) && stands(b, mid, second) {
        assert(b.subrange(at, end) =~= b.subrange(at, mid) + b.subrange(mid, end));
    }
}

/// A 16-bit number is read back from its bytes, and from no others.
pub proof fn number16_is_read_back(b: Seq<u8>, at: int, v: u16)
    requires
        0 <= at,
    ensures
        holds16(b, at, v) <==> at + 2 <= b.len() && crate::bytes::le16(b, at) == v,
{
    broadcast use {lemma_len16, lemma_len32, lemma_len64};

    reveal(holds16);
    reveal(bytes16);
    if stands(b, at, bytes16(v)) {
        lemma_stands(b, at, bytes16(v));
        assert(b[at + 0] == bytes16(v)[0] && b[at + 1] == bytes16(v)[1]);
    }
    if at + 2 <= b.len() && crate::bytes::le16(b, at) == v {
        assert(b.subrange(at, at + 2) =~= bytes16(v));
    }
}

proof fn lemma_split(v: u32)
    ensures
        v == v % 0x100 + 0x100 * ((v / 0x100) % 0x100) + 0x1_0000 * ((v / 0x1_0000) % 0x100)
            + 0x100_0000 * (v / 0x100_0000),
{
    broadcast use {lemma_len16, lemma_len32, lemma_len64};

}

proof fn lemma_join(v: int, b0: u8, b1: u8, b2: u8, b3: u8)
    requires
        v == b0 + 0x100 * b1 + 0x1_0000 * b2 + 0x100_0000 * b3,
    ensures
        v % 0x100 == b0,
        (v / 0x100) % 0x100 == b1,
        (v / 0x1_0000) % 0x100 == b2,
        v / 0x100_0000 == b3,
{
    broadcast use {lemma_len16, lemma_len32, lemma_len64};

    assert(v / 0x100 == b1 + 0x100 * b2 + 0x1_0000 * b3);
    assert(v / 0x1_0000 == b2 + 0x100 * b3);
}

/// A 32-bit number is read back from its bytes, and from no others.
pub proof fn number32_is_read_back(b: Seq<u8>, at: int, v: u32)
    requires
        0 <= at,
    ensures
        holds32(b, at, v) <==> at + 4 <= b.len() && crate::bytes::le32(b, at) == v,
{
    broadcast use {lemma_len16, lemma_len32, lemma_len64};

    reveal(holds32);
    reveal(bytes32);
    let w = bytes32(v);
    if stands(b, at, w) {
        lemma_stands(b, at, w);
        assert(b[at + 0] == w[0] && b[at + 1] == w[1] && b[at + 2] == w[2] && b[at + 3] == w[3]);
        lemma_split(v);
    }
    if at + 4 <= b.len() && crate::bytes::le32(b, at) == v {
        lemma_join(v as int, b[at], b[at + 1], b[at + 2], b[at + 3]);
        assert(b.subrange(at, at + 4) =~= w);
    }
}

/// A 64-bit number is read back from its bytes, and from no others.
pub proof fn number64_is_read_back(b: Seq<u8>, at: int, v: u64)
    requires
        0 <= at,
    ensures
        holds64(b, at, v) <==> at + 8 <= b.len() && crate::bytes::le64(b, at) == v,
{
    broadcast use {lemma_len16, lemma_len32, lemma_len64};

    reveal(holds64);
    reveal(bytes64);
    let lo = (v % 0x1_0000_0000) as u32;
    let hi = (v / 0x1_0000_0000) as u32;
    number32_is_read_back(b, at, lo);
    number32_is_read_back(b, at + 4, hi);
    reveal(holds32);
    if stands(b, at, bytes64(v)) {
        assert(b.subrange(at, at + 4) =~= b.subrange(at, at + 8).subrange(0, 4));
        assert(bytes64(v).subrange(0, 4) =~= bytes32(lo));
        assert(b.subrange(at + 4, at + 8) =~= b.subrange(at, at + 8).subrange(4, 8));
        assert(bytes64(v).subrange(4, 8) =~= bytes32(hi));
    }
    if at + 8 <= b.len() && crate::bytes::le64(b, at) == v {
        assert(b.subrange(at, at + 8) =~= b.subrange(at, at + 4) + b.subrange(at + 4, at + 8));
    }
}

/// A signed 16-bit number, as it is written: a negative one counts down from
/// the largest unsigned one.
pub open spec fn unsigned16(v: i16) -> u16 {
    if v >= 0 {
        v as u16
    } else {
        (0x1_0000 + v) as u16
    }
}

/// A signed number is read back.
pub proof fn signed_number_is_read_back(v: i16)
    ensures
        crate::bytes::signed16(unsigned16(v)) == v,
{
    broadcast use {lemma_len16, lemma_len32, lemma_len64};

}

/// Numbers of 32 bits, one behind the other.
pub open spec fn all_bytes32(v: Seq<u32>) -> Seq<u8>
    decreases v.len(),
{
    if v.len() == 0 {
        Seq::empty()
    } else {
        bytes32(v[0]) + all_bytes32(v.drop_first())
    }
}

/// Numbers of 64 bits, one behind the other.
pub open spec fn all_bytes64(v: Seq<u64>) -> Seq<u8>
    decreases v.len(),
{
    if v.len() == 0 {
        Seq::empty()
    } else {
        bytes64(v[0]) + all_bytes64(v.drop_first())
    }
}

/// Each of the numbers that stand one behind the other is read back at its
/// place.
pub proof fn numbers32_are_read_back(b: Seq<u8>, at: int, v: Seq<u32>, i: int)
    requires
        0 <= at,
        stands(b, at, all_bytes32(v)),
        0 <= i < v.len(),
    ensures
        all_bytes32(v).len() == 4 * v.len(),
        at + 4 * i + 4 <= b.len(),
        crate::bytes::le32(b, at + 4 * i) == v[i],
    decreases v.len(),
{
    broadcast use {lemma_len16, lemma_len32, lemma_len64};

    lemma_all_bytes32_len(v);
    lemma_stands_apart(b, at, bytes32(v[0]), all_bytes32(v.drop_first()));
    if i == 0 {
        reveal(holds32);
        number32_is_read_back(b, at, v[0]);
    } else {
        numbers32_are_read_back(b, at + 4, v.drop_first(), i - 1);
    }
}

/// Each of the numbers that stand one behind the other is read back at its
/// place.
pub proof fn numbers64_are_read_back(b: Seq<u8>, at: int, v: Seq<u64>, i: int)
    requires
        0 <= at,
        stands(b, at, all_bytes64(v)),
        0 <= i < v.len(),
    ensures
        all_bytes64(v).len() == 8 * v.len(),
        at + 8 * i + 8 <= b.len(),
        crate::bytes::le64(b, at + 8 * i) == v[i],
    decreases v.len(),
{
    broadcast use {lemma_len16, lemma_len32, lemma_len64};

    lemma_all_bytes64_len(v);
    lemma_stands_apart(b, at, bytes64(v[0]), all_bytes64(v.drop_first()));
    if i == 0 {
        reveal(holds64);
        number64_is_read_back(b, at, v[0]);
    } else {
        numbers64_are_read_back(b, at + 8, v.drop_first(), i - 1);
    }
}

pub proof fn lemma_all_bytes32_len(v: Seq<u32>)
    ensures
        all_bytes32(v).len() == 4 * v.len(),
    decreases v.len(),
{
    broadcast use {lemma_len16, lemma_len32, lemma_len64};

    if v.len() > 0 {
        lemma_all_bytes32_len(v.drop_first());
    }
}

pub proof fn lemma_all_bytes64_len(v: Seq<u64>)
    ensures
        all_bytes64(v).len() == 8 * v.len(),
    decreases v.len(),
{
    broadcast use {lemma_len16, lemma_len32, lemma_len64};

    if v.len() > 0 {
        lemma_all_bytes64_len(v.drop_first());
    }
}

/// A number that stands before `rest` is read back, and `rest` stands behind
/// it.
pub proof fn lemma_field16(b: Seq<u8>, at: int, v: u16, rest: Seq<u8>)
    requires
        0 <= at,
        stands(b, at, bytes16(v) + rest),
    ensures
        crate::bytes::le16(b, at) == v,
        stands(b, at + 2, rest),
        at + 2 + rest.len() <= b.len(),
{
    broadcast use {lemma_len16, lemma_len32, lemma_len64};

    lemma_stands_apart(b, at, bytes16(v), rest);
    reveal(holds16);
    number16_is_read_back(b, at, v);
}

/// A number that stands somewhere is read back.
pub proof fn lemma_last16(b: Seq<u8>, at: int, v: u16)
    requires
        0 <= at,
        stands(b, at, bytes16(v)),
    ensures
        crate::bytes::le16(b, at) == v,
{
    broadcast use {lemma_len16, lemma_len32, lemma_len64};

    reveal(holds16);
    number16_is_read_back(b, at, v);
}

/// A number that stands before `rest` is read back, and `rest` stands behind
/// it.
pub proof fn lemma_field32(b: Seq<u8>, at: int, v: u32, rest: Seq<u8>)
    requires
        0 <= at,
        stands(b, at, bytes32(v) + rest),
    ensures
        crate::bytes::le32(b, at) == v,
        stands(b, at + 4, rest),
        at + 4 + rest.len() <= b.len(),
{
    broadcast use {lemma_len16, lemma_len32, lemma_len64};

    lemma_stands_apart(b, at, bytes32(v), rest);
    reveal(holds32);
    number32_is_read_back(b, at, v);
}

/// A number that stands somewhere is read back.
pub proof fn lemma_last32(b: Seq<u8>, at: int, v: u32)
    requires
        0 <= at,
        stands(b, at, bytes32(v)),
    ensures
        crate::bytes::le32(b, at) == v,
{
    broadcast use {lemma_len16, lemma_len32, lemma_len64};

    reveal(holds32);
    number32_is_read_back(b, at, v);
}

/// A number that stands before `rest` is read back, and `rest` stands behind
/// it.
pub proof fn lemma_field64(b: Seq<u8>, at: int, v: u64, rest: Seq<u8>)
    requires
        0 <= at,
        stands(b, at, bytes64(v) + rest),
    ensures
        crate::bytes::le64(b, at) == v,
        stands(b, at + 8, rest),
        at + 8 + rest.len() <= b.len(),
{
    broadcast use {lemma_len16, lemma_len32, lemma_len64};

    lemma_stands_apart(b, at, bytes64(v), rest);
    reveal(holds64);
    number64_is_read_back(b, at, v);
}

/// A number that stands somewhere is read back.
pub proof fn lemma_last64(b: Seq<u8>, at: int, v: u64)
    requires
        0 <= at,
        stands(b, at, bytes64(v)),
    ensures
        crate::bytes::le64(b, at) == v,
{
    broadcast use {lemma_len16, lemma_len32, lemma_len64};

    reveal(holds64);
    number64_is_read_back(b, at, v);
}

} // verus!
