//! Extended attributes, as they are written.

use vstd::prelude::*;

use crate::error::Error;
use crate::metablock::Stream;
use crate::xattr::{XattrData, XattrIds};
use super::metablock::lemma_comes_apart;

verus! {

broadcast use {
    super::numbers::lemma_len16,
    super::numbers::lemma_len32,
    super::numbers::lemma_len64,
};

/// An attribute, as a writer has it: the index of its prefix, the part of its
/// name behind that, its value and, where the value stands elsewhere, the
/// reference to it.
pub struct Pair {
    pub prefix: u16,
    pub suffix: Seq<u8>,
    pub value: Seq<u8>,
    pub place: Option<u64>,
}

/// The prefixes: "user.", "trusted." and "security.".
pub open spec fn prefixes() -> Seq<Seq<u8>> {
    seq![
        seq![117u8, 115, 101, 114, 46],
        seq![116u8, 114, 117, 115, 116, 101, 100, 46],
        seq![115u8, 101, 99, 117, 114, 105, 116, 121, 46],
    ]
}

/// The attribute that a pair stands for.
pub open spec fn attribute_of(p: Pair) -> XattrData {
    XattrData { name: prefixes()[p.prefix as int] + p.suffix, value: p.value }
}

/// The bytes of a value: its length and itself.
pub open spec fn value_bytes(value: Seq<u8>) -> Seq<u8> {
    super::numbers::bytes32(value.len() as u32) + value
}

/// The bytes of a pair.
pub open spec fn pair_bytes(p: Pair) -> Seq<u8> {
    match p.place {
        None => (super::numbers::bytes16(p.prefix) + super::numbers::bytes16(
            p.suffix.len() as u16,
        )) + (p.suffix + value_bytes(p.value)),
        Some(place) => (super::numbers::bytes16((0x100 + p.prefix) as u16)
            + super::numbers::bytes16(p.suffix.len() as u16)) + (p.suffix + (
        super::numbers::bytes32(8) + super::numbers::bytes64(place))),
    }
}

/// Whether a writer may write the pair: its name has at most 255 bytes and its
/// value at most 64 KiB, and a value that stands elsewhere does stand where
/// its reference leads, counted from `table_start`.
pub open spec fn is_pair(
    image: Seq<u8>,
    compression_id: u16,
    table_start: u64,
    p: Pair,
) -> bool {
    &&& p.prefix < 3
    &&& prefixes()[p.prefix as int].len() + p.suffix.len() <= 255
    &&& p.value.len() <= 65536
    &&& match p.place {
        None => true,
        Some(place) => {
            &&& table_start + place / 0x1_0000 <= u64::MAX
            &&& crate::metablock::stream_at(
                image,
                compression_id,
                (table_start + place / 0x1_0000) as nat,
                (place % 0x1_0000) as nat,
            ) matches Ok(s)
            &&& super::metablock::comes_next(image, compression_id, s, value_bytes(p.value))
        },
    }
}

proof fn lemma_value(
    image: Seq<u8>,
    compression_id: u16,
    s: Stream,
    value: Seq<u8>,
    too_long: &'static str,
)
    requires
        value.len() <= 65536,
        super::metablock::comes_next(image, compression_id, s, value_bytes(value)),
    ensures
        crate::xattr::value_in(image, compression_id, s, too_long) == Ok::<
            (Seq<u8>, Stream),
            Error,
        >(
            (
                value,
                super::metablock::behind(image, compression_id, s, value_bytes(value).len()),
            ),
        ),
{
    let len = super::numbers::bytes32(value.len() as u32);
    lemma_comes_apart(image, compression_id, s, len, value);
    assert(len.subrange(0, 4) =~= len);
    super::numbers::lemma_last32(len, 0, value.len() as u32);
}

proof fn lemma_prefix(p: Pair)
    requires
        p.prefix < 3,
    ensures
        crate::xattr::prefix_of(p.prefix) == Some(prefixes()[p.prefix as int]),
{
    let want = prefixes()[p.prefix as int];
    assert(crate::xattr::prefix_of(p.prefix)->0 =~= want);
}

/// A pair that was written is read back: its whole name, and its value,
/// wherever that stands.
#[verifier::rlimit(40)]
pub proof fn pair_is_read_back(
    image: Seq<u8>,
    compression_id: u16,
    table_start: u64,
    s: Stream,
    p: Pair,
)
    requires
        is_pair(image, compression_id, table_start, p),
        super::metablock::comes_next(image, compression_id, s, pair_bytes(p)),
    ensures
        crate::xattr::pair_in(image, compression_id, table_start, s) == Ok::<
            (XattrData, Stream),
            Error,
        >(
            (
                attribute_of(p),
                super::metablock::behind(image, compression_id, s, pair_bytes(p).len()),
            ),
        ),
{
    let n = p.suffix.len() as u16;
    let raw_type = if p.place is None {
        p.prefix
    } else {
        (0x100 + p.prefix) as u16
    };
    let h = super::numbers::bytes16(raw_type) + super::numbers::bytes16(n);
    let v = match p.place {
        None => value_bytes(p.value),
        Some(place) => super::numbers::bytes32(8) + super::numbers::bytes64(place),
    };
    assert(pair_bytes(p) == h + (p.suffix + v));
    lemma_comes_apart(image, compression_id, s, h, p.suffix + v);
    let s1 = super::metablock::behind(image, compression_id, s, 4);
    lemma_comes_apart(image, compression_id, s1, p.suffix, v);
    let s2 = super::metablock::behind(image, compression_id, s1, p.suffix.len());
    assert(h.subrange(0, 4) =~= h);
    super::numbers::lemma_field16(h, 0, raw_type, super::numbers::bytes16(n));
    super::numbers::lemma_last16(h, 2, n);
    lemma_prefix(p);
    assert(raw_type % 0x100 == p.prefix);
    assert(attribute_of(p) =~= (XattrData {
        name: prefixes()[p.prefix as int] + p.suffix,
        value: p.value,
    }));
    match p.place {
        None => {
            lemma_value(
                image,
                compression_id,
                s2,
                p.value,
                "xattr value longer than the format allows",
            );
        },
        Some(place) => {
            let a = super::numbers::bytes32(8);
            let b = super::numbers::bytes64(place);
            lemma_comes_apart(image, compression_id, s2, a, b);
            assert(a.subrange(0, 4) =~= a);
            assert(b.subrange(0, 8) =~= b);
            super::numbers::lemma_last32(a, 0, 8);
            super::numbers::lemma_last64(b, 0, place);
            let there = crate::metablock::stream_at(
                image,
                compression_id,
                (table_start + place / 0x1_0000) as nat,
                (place % 0x1_0000) as nat,
            )->Ok_0;
            lemma_value(
                image,
                compression_id,
                there,
                p.value,
                "out-of-line xattr value longer than the format allows",
            );
        },
    }
}

/// The bytes of pairs, one behind the other.
pub open spec fn pairs_bytes(pairs: Seq<Pair>) -> Seq<u8>
    decreases pairs.len(),
{
    if pairs.len() == 0 {
        Seq::empty()
    } else {
        pair_bytes(pairs[0]) + pairs_bytes(pairs.drop_first())
    }
}

/// The attributes that pairs stand for.
pub open spec fn attributes_of(pairs: Seq<Pair>) -> Seq<XattrData> {
    Seq::new(pairs.len(), |i: int| attribute_of(pairs[i]))
}

/// What names and values of pairs add up to, with one byte for the end of
/// each name.
pub open spec fn size_of(pairs: Seq<Pair>) -> nat
    decreases pairs.len(),
{
    if pairs.len() == 0 {
        0
    } else {
        prefixes()[pairs[0].prefix as int].len() + pairs[0].suffix.len() + 1 + pairs[0].value.len()
            + size_of(pairs.drop_first())
    }
}

proof fn lemma_pairs(
    image: Seq<u8>,
    compression_id: u16,
    table_start: u64,
    s: Stream,
    pairs: Seq<Pair>,
    total: nat,
)
    requires
        forall|i: int|
            0 <= i < pairs.len() ==> is_pair(
                image,
                compression_id,
                table_start,
                #[trigger] pairs[i],
            ),
        super::metablock::comes_next(image, compression_id, s, pairs_bytes(pairs)),
    ensures
        crate::xattr::pairs_in(
            image,
            compression_id,
            table_start,
            s,
            pairs.len(),
            total,
            total + size_of(pairs),
        ) == Ok::<Seq<XattrData>, Error>(attributes_of(pairs)),
    decreases pairs.len(),
{
    if pairs.len() == 0 {
        assert(attributes_of(pairs) =~= Seq::empty());
    } else {
        let p = pairs[0];
        let rest = pairs.drop_first();
        assert(is_pair(image, compression_id, table_start, p));
        lemma_comes_apart(image, compression_id, s, pair_bytes(p), pairs_bytes(rest));
        pair_is_read_back(image, compression_id, table_start, s, p);
        assert forall|i: int| 0 <= i < rest.len() implies is_pair(
            image,
            compression_id,
            table_start,
            #[trigger] rest[i],
        ) by {
            assert(rest[i] == pairs[i + 1]);
        }
        let share = crate::xattr::share(attribute_of(p));
        assert(share + size_of(rest) == size_of(pairs));
        lemma_pairs(
            image,
            compression_id,
            table_start,
            super::metablock::behind(image, compression_id, s, pair_bytes(p).len()),
            rest,
            total + share,
        );
        assert(total + share + size_of(rest) == total + size_of(pairs));
        assert(seq![attribute_of(p)] + attributes_of(rest) =~= attributes_of(pairs));
    }
}

/// A set of attributes that was written is read back whole and in its order,
/// where its entry leads to it and says what it adds up to.
pub proof fn set_is_read_back(
    image: Seq<u8>,
    compression_id: u16,
    t: XattrIds,
    index: u32,
    s: Stream,
    pairs: Seq<Pair>,
)
    requires
        index < t.ids.len(),
        pairs.len() <= 16384,
        t.ids[index as int].count == pairs.len(),
        t.ids[index as int].size == size_of(pairs),
        t.table_start + t.ids[index as int].xattr_ref / 0x1_0000 <= u64::MAX,
        crate::metablock::stream_at(
            image,
            compression_id,
            (t.table_start + t.ids[index as int].xattr_ref / 0x1_0000) as nat,
            (t.ids[index as int].xattr_ref % 0x1_0000) as nat,
        ) == Ok::<Stream, Error>(s),
        forall|i: int|
            0 <= i < pairs.len() ==> is_pair(
                image,
                compression_id,
                t.table_start,
                #[trigger] pairs[i],
            ),
        super::metablock::comes_next(image, compression_id, s, pairs_bytes(pairs)),
    ensures
        crate::xattr::set_at(image, compression_id, t, index) == Ok::<Seq<XattrData>, Error>(
            attributes_of(pairs),
        ),
{
    lemma_pairs(image, compression_id, t.table_start, s, pairs, 0);
}

/// A set that no table has is refused.
pub proof fn missing_sets_are_refused(
    image: Seq<u8>,
    compression_id: u16,
    t: XattrIds,
    index: u32,
)
    requires
        index >= t.ids.len(),
    ensures
        crate::xattr::set_at(image, compression_id, t, index) matches Err(Error::BadMetadata(_)),
{
}

} // verus!
