//! The converters in encode direction, and what it means to undo them.
//!
//! An encoder replaces the relative target of each branch by an absolute one:
//! it adds the branch's position, where [`crate::bcj`] takes it off. A stream
//! records the position of its first byte, which is a multiple of the
//! alignment of the instruction set.

use vstd::prelude::*;

use crate::bcj::Bcj;

verus! {

proof fn lemma_wrapping(a: u32, b: u32)
    ensures
        a.wrapping_sub(b) == (a - b) as u32,
        a.wrapping_add(b) == (a + b) as u32,
{
    assert((a - b) as u32 == if a >= b {
        a - b
    } else {
        a - b + 0x1_0000_0000
    }) by (bit_vector);
    assert((a + b) as u32 == if a + b < 0x1_0000_0000 {
        a + b
    } else {
        a + b - 0x1_0000_0000
    }) by (bit_vector);
}

/// The position of offset `i` of a block that began at `start` is a multiple
/// of four where both are.
proof fn lemma_aligned(start: u32, i: int)
    requires
        start % 4 == 0,
        i % 4 == 0,
    ensures
        crate::bcj::position(start, i) % 4 == 0,
{
}

/// The bytes of a big-endian word are the bytes it was read from.
proof fn lemma_be32_bytes(b: Seq<u8>, i: int, k: int)
    requires
        0 <= i,
        i + 4 <= b.len(),
        0 <= k < 4,
    ensures
        crate::bcj::be_byte(crate::bcj::be32(b, i), k) == b[i + k],
{
    let (b0, b1, b2, b3) = (b[i], b[i + 1], b[i + 2], b[i + 3]);
    let w = crate::bcj::be32(b, i);
    assert((w >> 24) as u8 == b0 && (w >> 16) as u8 == b1 && (w >> 8) as u8 == b2 && w as u8 == b3)
        by (bit_vector)
        requires
            w == 0x100_0000 * b0 + 0x1_0000 * b1 + 0x100 * b2 + b3,
    ;
}

/// A word is read back from its big-endian bytes.
proof fn lemma_be32_of_bytes(b: Seq<u8>, i: int, w: u32)
    requires
        0 <= i,
        i + 4 <= b.len(),
        forall|k: int| 0 <= k < 4 ==> b[i + k] == #[trigger] crate::bcj::be_byte(w, k),
    ensures
        crate::bcj::be32(b, i) == w,
{
    assert(b[i + 0] == crate::bcj::be_byte(w, 0));
    assert(b[i + 1] == crate::bcj::be_byte(w, 1));
    assert(b[i + 2] == crate::bcj::be_byte(w, 2));
    assert(b[i + 3] == crate::bcj::be_byte(w, 3));
    assert(w == 0x100_0000 * ((w >> 24) as u8) + 0x1_0000 * ((w >> 16) as u8) + 0x100 * ((w
        >> 8) as u8) + (w as u8)) by (bit_vector);
}

// ---- what an encoder reads and writes ----

/// Where offset `i` of a block that begins at `start` is, in 32 bits.
pub open spec fn place(start: u32, i: int) -> u32 {
    ((start + i) % 0x1_0000_0000) as u32
}

/// The big-endian word at `i`.
pub open spec fn word_at(b: Seq<u8>, i: int) -> u32 {
    (0x100_0000 * b[i] + 0x1_0000 * b[i + 1] + 0x100 * b[i + 2] + b[i + 3]) as u32
}

/// Byte `k` of a big-endian word.
pub open spec fn word_byte(w: u32, k: int) -> u8 {
    if k == 0 {
        (w >> 24) as u8
    } else if k == 1 {
        (w >> 16) as u8
    } else if k == 2 {
        (w >> 8) as u8
    } else {
        w as u8
    }
}

/// Whether a PowerPC word is a `bl`: primary opcode 18, relative, linking.
pub open spec fn is_powerpc_call(w: u32) -> bool {
    w & 0xFC00_0003 == 0x4800_0001
}

/// Whether a SPARC word is a `call` whose displacement has 23 bits, signed.
pub open spec fn is_sparc_call(w: u32) -> bool {
    w >> 22 == 0x100 || w >> 22 == 0x1FF
}

/// The 24-bit operand of an ARM `bl` at `i`.
pub open spec fn operand_at(b: Seq<u8>, i: int) -> u32 {
    (b[i] + 0x100 * b[i + 1] + 0x1_0000 * b[i + 2]) as u32
}

/// Whether the two halfwords of a Thumb `bl` stand at `i`.
pub open spec fn is_pair(buf: Seq<u8>, i: int) -> bool {
    buf[i + 1] & 0xF8 == 0xF0 && buf[i + 3] & 0xF8 == 0xF8
}

/// `buf` with a Thumb `bl` to `t` at `i`.
pub open spec fn with_pair(buf: Seq<u8>, i: int, t: u32) -> Seq<u8> {
    buf.update(i, (t >> 11) as u8).update(i + 1, 0xF0 | ((t >> 19) & 0x07) as u8).update(
        i + 2,
        t as u8,
    ).update(i + 3, 0xF8 | ((t >> 8) & 0x07) as u8)
}

/// The branch slots of an IA-64 bundle, one bit each: the third of an MIB,
/// MMB or MFB bundle, the last two of an MBB bundle, all of a BBB bundle.
pub open spec fn call_slots(template: u8) -> u32 {
    let t = template & 0x1F;
    if t == 16 || t == 17 || t == 24 || t == 25 || t == 28 || t == 29 {
        4
    } else if t == 18 || t == 19 {
        6
    } else if t == 22 || t == 23 {
        7
    } else {
        0
    }
}

/// The six bytes at `i` as a number.
pub open spec fn window_value(b: Seq<u8>, i: int) -> u64 {
    (b[i] + 0x100 * b[i + 1] + 0x1_0000 * b[i + 2] + 0x100_0000 * b[i + 3] + 0x1_0000_0000 * b[i
        + 4] + 0x100_0000_0000 * b[i + 5]) as u64
}

/// `b` with the six bytes at `i` holding `v`.
pub open spec fn with_window(b: Seq<u8>, i: int, v: u64) -> Seq<u8> {
    b.update(i, v as u8).update(i + 1, (v >> 8) as u8).update(i + 2, (v >> 16) as u8).update(
        i + 3,
        (v >> 24) as u8,
    ).update(i + 4, (v >> 32) as u8).update(i + 5, (v >> 40) as u8)
}

/// Whether an IA-64 slot is an IP-relative call: major opcode 5, and zeros
/// where its type stands.
pub open spec fn is_ia64_call(norm: u64) -> bool {
    (norm >> 37) & 0x0F == 0x05 && (norm >> 9) & 0x07 == 0
}

/// Whether `b` is the sign of a near x86 target.
pub open spec fn is_sign_byte(b: u8) -> bool {
    b == 0x00 || b == 0xFF
}

/// Whether at most one recent opcode is in doubt.
pub open spec fn one_in_doubt(mask: u32) -> bool {
    mask == 0 || mask == 1 || mask == 2 || mask == 4
}

/// How far back the opcode in doubt is.
pub open spec fn doubt_reach(mask: u32) -> int {
    if mask == 0 {
        0
    } else if mask == 1 {
        1
    } else if mask == 2 || mask == 3 {
        2
    } else {
        3
    }
}

/// The operand bits up to the sign byte of the opcode in doubt.
pub open spec fn flipped_bits(mask: u32) -> u32 {
    if mask == 1 {
        0xFF_FFFF
    } else if mask == 2 {
        0xFFFF
    } else {
        0xFF
    }
}

/// That sign byte.
pub open spec fn flipped_top(mask: u32, v: u32) -> u8 {
    if mask == 1 {
        (v >> 16) as u8
    } else if mask == 2 {
        (v >> 8) as u8
    } else {
        v as u8
    }
}

/// The low 25 bits of `v` with their sign.
pub open spec fn sign_extended(v: u32) -> u32 {
    let low = v & 0x01FF_FFFF;
    low | 0u32.wrapping_sub(low & 0x0100_0000)
}

/// `b` with the four bytes at `i` holding `v`.
pub open spec fn with_operand(b: Seq<u8>, i: int, v: u32) -> Seq<u8> {
    b.update(i, v as u8).update(i + 1, (v >> 8) as u8).update(i + 2, (v >> 16) as u8).update(
        i + 3,
        (v >> 24) as u8,
    )
}

// ---- PowerPC ----

/// The `bl` at `i` with its target made absolute.
pub open spec fn powerpc_absolute(start: u32, i: int, w: u32) -> u32 {
    ((w & 0x03FF_FFFC).wrapping_add(place(start, i)) & 0x03FF_FFFC) | 0x4800_0001
}

/// Every whole aligned word that is a branch converted, all else kept.
pub open spec fn powerpc_encoded(start: u32, buf: Seq<u8>) -> Seq<u8> {
    Seq::new(
        buf.len(),
        |k: int|
            {
                let i = k - k % 4;
                if i + 4 <= buf.len() && is_powerpc_call(word_at(buf, i)) {
                    word_byte(powerpc_absolute(start, i, word_at(buf, i)), k % 4)
                } else {
                    buf[k]
                }
            },
    )
}

proof fn lemma_powerpc_word(start: u32, i: int, w: u32)
    requires
        0 <= i,
        i % 4 == 0,
        start % 4 == 0,
        crate::bcj::powerpc_branch(w),
    ensures
        crate::bcj::powerpc_branch(powerpc_absolute(start, i, w)),
        crate::bcj::powerpc_word(start, i, powerpc_absolute(start, i, w)) == w,
{
    let at = crate::bcj::position(start, i);
    lemma_aligned(start, i);
    let sum = (w & 0x03FF_FFFC).wrapping_add(at);
    lemma_wrapping(w & 0x03FF_FFFC, at);
    let there = (sum & 0x03FF_FFFC) | 0x4800_0001;
    let diff = (there & 0x03FF_FFFC).wrapping_sub(at);
    lemma_wrapping(there & 0x03FF_FFFC, at);
    assert(there & 0xFC00_0003 == 0x4800_0001 && (diff & 0x03FF_FFFC) | 0x4800_0001 == w)
        by (bit_vector)
        requires
            w & 0xFC00_0003 == 0x4800_0001,
            at % 4 == 0,
            sum == ((w & 0x03FF_FFFC) + at) as u32,
            there == (sum & 0x03FF_FFFC) | 0x4800_0001,
            diff == ((there & 0x03FF_FFFC) - at) as u32,
    ;
}

/// The whole word at `i` is encoded, and decoded again.
proof fn lemma_powerpc_at(start: u32, buf: Seq<u8>, i: int, m: int)
    requires
        start % 4 == 0,
        0 <= i,
        i % 4 == 0,
        i + 4 <= buf.len(),
        0 <= m < 4,
    ensures
        crate::bcj::powerpc_decoded(start, powerpc_encoded(start, buf))[i + m] == buf[i + m],
{
    let there = powerpc_encoded(start, buf);
    let w = crate::bcj::be32(buf, i);
    assert(w == word_at(buf, i));
    let a = if crate::bcj::powerpc_branch(w) {
        powerpc_absolute(start, i, w)
    } else {
        w
    };
    assert forall|j: int| 0 <= j < 4 implies there[i + j] == #[trigger] crate::bcj::be_byte(a, j) by {
        assert((i + j) - (i + j) % 4 == i && (i + j) % 4 == j);
        assert(crate::bcj::be_byte(a, j) == word_byte(a, j));
        lemma_be32_bytes(buf, i, j);
    }
    lemma_be32_of_bytes(there, i, a);
    if crate::bcj::powerpc_branch(w) {
        lemma_powerpc_word(start, i, w);
    }
    assert((i + m) - (i + m) % 4 == i && (i + m) % 4 == m);
    lemma_be32_bytes(buf, i, m);
}

/// Decoding undoes the PowerPC encoder, for every block whose start is
/// aligned.
proof fn powerpc_is_undone(start: u32, buf: Seq<u8>)
    requires
        start % 4 == 0,
    ensures
        crate::bcj::decoded(Bcj::PowerPc, start, powerpc_encoded(start, buf)) == buf,
{
    let there = powerpc_encoded(start, buf);
    let back = crate::bcj::powerpc_decoded(start, there);
    assert forall|k: int| 0 <= k < buf.len() implies back[k] == buf[k] by {
        let i = k - k % 4;
        if i + 4 <= buf.len() {
            lemma_powerpc_at(start, buf, i, k % 4);
        }
    }
    assert(back =~= buf);
}

// ---- SPARC ----

/// The `call` at `i` with its target made absolute.
pub open spec fn sparc_absolute(start: u32, i: int, w: u32) -> u32 {
    let t = (w << 2).wrapping_add(place(start, i)) >> 2;
    0x4000_0000u32.wrapping_sub(t & 0x40_0000) | 0x4000_0000 | (t & 0x3F_FFFF)
}

/// Every whole aligned word that is a call converted, all else kept.
pub open spec fn sparc_encoded(start: u32, buf: Seq<u8>) -> Seq<u8> {
    Seq::new(
        buf.len(),
        |k: int|
            {
                let i = k - k % 4;
                if i + 4 <= buf.len() && is_sparc_call(word_at(buf, i)) {
                    word_byte(sparc_absolute(start, i, word_at(buf, i)), k % 4)
                } else {
                    buf[k]
                }
            },
    )
}

proof fn lemma_sparc_word(start: u32, i: int, w: u32)
    requires
        i % 4 == 0,
        start % 4 == 0,
        crate::bcj::sparc_branch(w),
    ensures
        crate::bcj::sparc_branch(sparc_absolute(start, i, w)),
        crate::bcj::sparc_word(start, i, sparc_absolute(start, i, w)) == w,
{
    let at = crate::bcj::position(start, i);
    lemma_aligned(start, i);
    let sum = (w << 2).wrapping_add(at);
    lemma_wrapping(w << 2, at);
    let up = 0x4000_0000u32.wrapping_sub((sum >> 2) & 0x40_0000);
    lemma_wrapping(0x4000_0000, (sum >> 2) & 0x40_0000);
    let there = up | 0x4000_0000 | ((sum >> 2) & 0x3F_FFFF);
    let diff = (there << 2).wrapping_sub(at);
    lemma_wrapping(there << 2, at);
    let down = 0x4000_0000u32.wrapping_sub((diff >> 2) & 0x40_0000);
    lemma_wrapping(0x4000_0000, (diff >> 2) & 0x40_0000);
    assert((there >> 22 == 0x100 || there >> 22 == 0x1FF) && down | 0x4000_0000 | ((diff >> 2)
        & 0x3F_FFFF) == w) by (bit_vector)
        requires
            w >> 22 == 0x100 || w >> 22 == 0x1FF,
            at % 4 == 0,
            sum == ((w << 2) + at) as u32,
            up == (0x4000_0000u32 - ((sum >> 2) & 0x40_0000)) as u32,
            there == up | 0x4000_0000 | ((sum >> 2) & 0x3F_FFFF),
            diff == ((there << 2) - at) as u32,
            down == (0x4000_0000u32 - ((diff >> 2) & 0x40_0000)) as u32,
    ;
}

/// The whole word at `i` is encoded, and decoded again.
proof fn lemma_sparc_at(start: u32, buf: Seq<u8>, i: int, m: int)
    requires
        start % 4 == 0,
        0 <= i,
        i % 4 == 0,
        i + 4 <= buf.len(),
        0 <= m < 4,
    ensures
        crate::bcj::sparc_decoded(start, sparc_encoded(start, buf))[i + m] == buf[i + m],
{
    let there = sparc_encoded(start, buf);
    let w = crate::bcj::be32(buf, i);
    assert(w == word_at(buf, i));
    let a = if crate::bcj::sparc_branch(w) {
        sparc_absolute(start, i, w)
    } else {
        w
    };
    assert forall|j: int| 0 <= j < 4 implies there[i + j] == #[trigger] crate::bcj::be_byte(a, j) by {
        assert((i + j) - (i + j) % 4 == i && (i + j) % 4 == j);
        assert(crate::bcj::be_byte(a, j) == word_byte(a, j));
        lemma_be32_bytes(buf, i, j);
    }
    lemma_be32_of_bytes(there, i, a);
    if crate::bcj::sparc_branch(w) {
        lemma_sparc_word(start, i, w);
    }
    assert((i + m) - (i + m) % 4 == i && (i + m) % 4 == m);
    lemma_be32_bytes(buf, i, m);
}

/// Decoding undoes the SPARC encoder, for every block whose start is
/// aligned.
proof fn sparc_is_undone(start: u32, buf: Seq<u8>)
    requires
        start % 4 == 0,
    ensures
        crate::bcj::decoded(Bcj::Sparc, start, sparc_encoded(start, buf)) == buf,
{
    let there = sparc_encoded(start, buf);
    let back = crate::bcj::sparc_decoded(start, there);
    assert forall|k: int| 0 <= k < buf.len() implies back[k] == buf[k] by {
        let i = k - k % 4;
        if i + 4 <= buf.len() {
            lemma_sparc_at(start, buf, i, k % 4);
        }
    }
    assert(back =~= buf);
}

// ---- ARM ----

/// The operand of the `bl` at `i` made absolute.
pub open spec fn arm_absolute(start: u32, i: int, operand: u32) -> u32 {
    (operand << 2).wrapping_add(place(start, i).wrapping_add(8)) >> 2
}

/// Byte `k` of `w` in little-endian order.
pub open spec fn le_byte(w: u32, k: int) -> u8 {
    if k == 0 {
        w as u8
    } else if k == 1 {
        (w >> 8) as u8
    } else {
        (w >> 16) as u8
    }
}

/// Every whole aligned word that is a `bl` converted, all else kept.
pub open spec fn arm_encoded(start: u32, buf: Seq<u8>) -> Seq<u8> {
    Seq::new(
        buf.len(),
        |k: int|
            {
                let i = k - k % 4;
                if i + 4 <= buf.len() && buf[i + 3] == 0xEB && k % 4 < 3 {
                    le_byte(arm_absolute(start, i, operand_at(buf, i)), k % 4)
                } else {
                    buf[k]
                }
            },
    )
}

proof fn lemma_arm_operand(start: u32, i: int, b: Seq<u8>, there: Seq<u8>)
    requires
        start % 4 == 0,
        i % 4 == 0,
        0 <= i,
        i + 4 <= b.len(),
        b.len() == there.len(),
        forall|k: int|
            0 <= k < 3 ==> there[i + k] == #[trigger] le_byte(
                arm_absolute(start, i, crate::bcj::le24(b, i)),
                k,
            ),
    ensures
        forall|k: int|
            0 <= k < 3 ==> b[i + k] == #[trigger] le_byte(
                crate::bcj::arm_operand(start, i, crate::bcj::le24(there, i)),
                k,
            ),
{
    let at0 = crate::bcj::position(start, i);
    let at = at0.wrapping_add(8);
    lemma_aligned(start, i);
    lemma_wrapping(at0, 8);
    let (b0, b1, b2) = (b[i], b[i + 1], b[i + 2]);
    let w = crate::bcj::le24(b, i);
    let sum = (w << 2).wrapping_add(at);
    lemma_wrapping(w << 2, at);
    let a = sum >> 2;
    assert(a == arm_absolute(start, i, w));
    assert(there[i + 0] == le_byte(arm_absolute(start, i, w), 0));
    assert(there[i + 1] == le_byte(arm_absolute(start, i, w), 1));
    assert(there[i + 2] == le_byte(arm_absolute(start, i, w), 2));
    let (t0, t1, t2) = (there[i], there[i + 1], there[i + 2]);
    let v = crate::bcj::le24(there, i);
    let diff = (v << 2).wrapping_sub(at);
    lemma_wrapping(v << 2, at);
    let d = diff >> 2;
    assert(d as u8 == b0 && (d >> 8) as u8 == b1 && (d >> 16) as u8 == b2) by (bit_vector)
        requires
            at0 % 4 == 0,
            at == (at0 + 8) as u32,
            w == b0 + 0x100 * b1 + 0x1_0000 * b2,
            sum == ((w << 2) + at) as u32,
            a == sum >> 2,
            t0 == a as u8,
            t1 == (a >> 8) as u8,
            t2 == (a >> 16) as u8,
            v == t0 + 0x100 * t1 + 0x1_0000 * t2,
            diff == ((v << 2) - at) as u32,
            d == diff >> 2,
    ;
}

/// Decoding undoes the ARM encoder, for every block whose start is aligned.
proof fn arm_is_undone(start: u32, buf: Seq<u8>)
    requires
        start % 4 == 0,
    ensures
        crate::bcj::decoded(Bcj::Arm, start, arm_encoded(start, buf)) == buf,
{
    let there = arm_encoded(start, buf);
    let back = crate::bcj::arm_decoded(start, there);
    assert forall|k: int| 0 <= k < buf.len() implies back[k] == buf[k] by {
        let i = k - k % 4;
        if i + 4 <= buf.len() {
            assert((i + 3) % 4 == 3);
            assert(there[i + 3] == buf[i + 3]);
            if buf[i + 3] == 0xEB {
                assert forall|m: int| 0 <= m < 3 implies there[i + m] == #[trigger] le_byte(
                    arm_absolute(start, i, crate::bcj::le24(buf, i)),
                    m,
                ) by {
                    assert((i + m) - (i + m) % 4 == i && (i + m) % 4 == m);
                }
                lemma_arm_operand(start, i, buf, there);
                if k % 4 < 3 {
                    assert(buf[i + k % 4] == le_byte(
                        crate::bcj::arm_operand(start, i, crate::bcj::le24(there, i)),
                        k % 4,
                    ));
                }
            }
        }
    }
    assert(back =~= buf);
}

// ---- ARM Thumb ----

/// The target of the pair at `i`, made absolute.
pub open spec fn armthumb_absolute(start: u32, buf: Seq<u8>, i: int) -> u32 {
    let t = ((buf[i + 1] as u32 & 0x07) << 19) | ((buf[i] as u32) << 11) | ((buf[i + 3] as u32
        & 0x07) << 8) | (buf[i + 2] as u32);
    (t << 1).wrapping_add(place(start, i).wrapping_add(4)) >> 1
}

/// `buf` encoded from `i` on. A converted pair is skipped whole; otherwise
/// the scan moves on by one halfword.
pub open spec fn armthumb_encoded_from(start: u32, buf: Seq<u8>, i: int) -> Seq<u8>
    decreases buf.len() - i,
{
    if i < 0 || i + 4 > buf.len() {
        buf
    } else if is_pair(buf, i) {
        armthumb_encoded_from(
            start,
            with_pair(buf, i, armthumb_absolute(start, buf, i)),
            i + 4,
        )
    } else {
        armthumb_encoded_from(start, buf, i + 2)
    }
}

/// Encoding from `i` on keeps what stands before `i`, and a byte that is not
/// the start of a pair's second half does not become one.
proof fn lemma_armthumb_kept(start: u32, buf: Seq<u8>, i: int)
    requires
        0 <= i,
    ensures
        armthumb_encoded_from(start, buf, i).len() == buf.len(),
        forall|k: int|
            0 <= k < i && k < buf.len() ==> #[trigger] armthumb_encoded_from(start, buf, i)[k]
                == buf[k],
        i + 1 < buf.len() ==> armthumb_encoded_from(start, buf, i)[i + 1] & 0xF8 == buf[i + 1]
            & 0xF8,
    decreases buf.len() - i,
{
    if i + 4 <= buf.len() {
        if crate::bcj::armthumb_branch(buf, i) {
            let t = armthumb_absolute(start, buf, i);
            let put = with_pair(buf, i, t);
            lemma_armthumb_kept(start, put, i + 4);
            let top = ((t >> 19) & 0x07) as u8;
            assert((0xF0u8 | (((t >> 19) & 0x07) as u8)) & 0xF8 == 0xF0) by (bit_vector);
            assert(armthumb_encoded_from(start, buf, i)[i + 1] == put[i + 1]);
        } else {
            lemma_armthumb_kept(start, buf, i + 2);
            assert(armthumb_encoded_from(start, buf, i)[i + 1] == buf[i + 1]);
        }
    }
}

proof fn lemma_armthumb_pair(start: u32, buf: Seq<u8>, i: int, there: Seq<u8>)
    requires
        start % 2 == 0,
        i % 2 == 0,
        0 <= i,
        i + 4 <= buf.len(),
        crate::bcj::armthumb_branch(buf, i),
        there.len() == buf.len(),
        forall|k: int|
            i <= k < i + 4 ==> #[trigger] there[k] == with_pair(
                buf,
                i,
                armthumb_absolute(start, buf, i),
            )[k],
    ensures
        crate::bcj::armthumb_branch(there, i),
        forall|k: int|
            i <= k < i + 4 ==> #[trigger] crate::bcj::armthumb_put(
                there,
                i,
                crate::bcj::armthumb_target(start, there, i),
            )[k] == buf[k],
{
    let at0 = crate::bcj::position(start, i);
    assert(at0 % 2 == 0);
    let at = at0.wrapping_add(4);
    lemma_wrapping(at0, 4);
    let (b0, b1, b2, b3) = (buf[i], buf[i + 1], buf[i + 2], buf[i + 3]);
    let t = ((b1 as u32 & 0x07) << 19) | ((b0 as u32) << 11) | ((b3 as u32 & 0x07) << 8) | (
    b2 as u32);
    let sum = (t << 1).wrapping_add(at);
    lemma_wrapping(t << 1, at);
    let a = sum >> 1;
    let (t0, t1, t2, t3) = (there[i], there[i + 1], there[i + 2], there[i + 3]);
    let v = ((t1 as u32 & 0x07) << 19) | ((t0 as u32) << 11) | ((t3 as u32 & 0x07) << 8) | (
    t2 as u32);
    let diff = (v << 1).wrapping_sub(at);
    lemma_wrapping(v << 1, at);
    let d = diff >> 1;
    assert(t1 & 0xF8 == 0xF0 && t3 & 0xF8 == 0xF8 && 0xF0u8 | (((d >> 19) & 0x07) as u8) == b1 && (d
        >> 11) as u8 == b0 && 0xF8u8 | (((d >> 8) & 0x07) as u8) == b3 && d as u8 == b2)
        by (bit_vector)
        requires
            b1 & 0xF8 == 0xF0,
            b3 & 0xF8 == 0xF8,
            at0 % 2 == 0,
            at == (at0 + 4) as u32,
            t == ((b1 as u32 & 0x07) << 19) | ((b0 as u32) << 11) | ((b3 as u32 & 0x07) << 8) | (
            b2 as u32),
            sum == ((t << 1) + at) as u32,
            a == sum >> 1,
            t1 == 0xF0u8 | (((a >> 19) & 0x07) as u8),
            t0 == (a >> 11) as u8,
            t3 == 0xF8u8 | (((a >> 8) & 0x07) as u8),
            t2 == a as u8,
            v == ((t1 as u32 & 0x07) << 19) | ((t0 as u32) << 11) | ((t3 as u32 & 0x07) << 8) | (
            t2 as u32),
            diff == ((v << 1) - at) as u32,
            d == diff >> 1,
    ;
}

/// Decoding from `i` on what was encoded from `i` on gives back what stood
/// there.
proof fn lemma_armthumb_from(start: u32, buf: Seq<u8>, i: int)
    requires
        start % 2 == 0,
        i % 2 == 0,
        0 <= i <= buf.len(),
    ensures
        crate::bcj::armthumb_from(start, armthumb_encoded_from(start, buf, i), i) == buf,
    decreases buf.len() - i,
{
    let there = armthumb_encoded_from(start, buf, i);
    if i + 4 <= buf.len() {
        lemma_armthumb_kept(start, buf, i);
        if crate::bcj::armthumb_branch(buf, i) {
            let put = with_pair(buf, i, armthumb_absolute(start, buf, i));
            lemma_armthumb_kept(start, put, i + 4);
            lemma_armthumb_pair(start, buf, i, there);
            // What follows the pair was encoded on its own.
            let undone = crate::bcj::armthumb_put(
                there,
                i,
                crate::bcj::armthumb_target(start, there, i),
            );
            lemma_armthumb_rest(start, put, buf, i + 4);
            lemma_armthumb_kept(start, buf, i + 4);
            let rest = armthumb_encoded_from(start, buf, i + 4);
            assert forall|k: int| 0 <= k < buf.len() implies undone[k] == rest[k] by {
                if k < i {
                    assert(there[k] == buf[k]);
                } else if k >= i + 4 {
                    assert(armthumb_encoded_from(start, put, i + 4)[k] == rest[k]);
                }
            }
            assert(undone =~= rest);
            lemma_armthumb_from(start, buf, i + 4);
        } else {
            lemma_armthumb_kept(start, buf, i + 2);
            if buf[i + 1] & 0xF8 == 0xF0 {
                assert(there[i + 3] & 0xF8 == buf[i + 3] & 0xF8);
            }
            assert(there[i + 1] == buf[i + 1]);
            lemma_armthumb_from(start, buf, i + 2);
        }
    }
}

/// Encoding from `i` on depends on nothing before `i`.
proof fn lemma_armthumb_rest(start: u32, a: Seq<u8>, b: Seq<u8>, i: int)
    requires
        0 <= i,
        a.len() == b.len(),
        forall|k: int| i <= k < a.len() ==> #[trigger] a[k] == b[k],
    ensures
        forall|k: int|
            i <= k < a.len() ==> #[trigger] armthumb_encoded_from(start, a, i)[k]
                == armthumb_encoded_from(start, b, i)[k],
    decreases a.len() - i,
{
    if i + 4 <= a.len() {
        if crate::bcj::armthumb_branch(a, i) {
            let pa = with_pair(a, i, armthumb_absolute(start, a, i));
            let pb = with_pair(b, i, armthumb_absolute(start, b, i));
            lemma_armthumb_rest(start, pa, pb, i + 4);
            lemma_armthumb_kept(start, pa, i + 4);
            lemma_armthumb_kept(start, pb, i + 4);
            assert forall|k: int| i <= k < a.len() implies #[trigger] armthumb_encoded_from(
                start,
                a,
                i,
            )[k] == armthumb_encoded_from(start, b, i)[k] by {
                if k < i + 4 {
                    assert(armthumb_encoded_from(start, pa, i + 4)[k] == pa[k]);
                    assert(armthumb_encoded_from(start, pb, i + 4)[k] == pb[k]);
                    assert(pa[k] == pb[k]);
                }
            }
        } else {
            lemma_armthumb_rest(start, a, b, i + 2);
            lemma_armthumb_kept(start, a, i + 2);
            lemma_armthumb_kept(start, b, i + 2);
            assert forall|k: int| i <= k < a.len() implies #[trigger] armthumb_encoded_from(
                start,
                a,
                i,
            )[k] == armthumb_encoded_from(start, b, i)[k] by {
                if k < i + 2 {
                    assert(armthumb_encoded_from(start, a, i + 2)[k] == a[k]);
                    assert(armthumb_encoded_from(start, b, i + 2)[k] == b[k]);
                }
            }
        }
    }
}

/// Decoding undoes the ARM Thumb encoder, for every block whose start is
/// aligned.
proof fn armthumb_is_undone(start: u32, buf: Seq<u8>)
    requires
        start % 2 == 0,
    ensures
        crate::bcj::decoded(Bcj::ArmThumb, start, armthumb_encoded_from(start, buf, 0)) == buf,
{
    lemma_armthumb_from(start, buf, 0);
}

// ---- IA-64 ----

/// The slot value `norm` of the bundle at `i`, its target made absolute.
pub open spec fn ia64_absolute(start: u32, i: int, norm: u64) -> u64 {
    let addr = (((norm >> 13) & 0x0F_FFFF) as u32) | ((((norm >> 36) & 1) as u32) << 20);
    let abs = (addr << 4).wrapping_add(place(start, i)) >> 4;
    (norm & !(0x8F_FFFFu64 << 13)) | (((abs & 0x0F_FFFF) as u64) << 13) | (((abs & 0x10_0000) as u64)
        << 16)
}

/// The bundle at `i` with slot `slot` encoded.
pub open spec fn ia64_slot_encoded(
    start: u32,
    buf: Seq<u8>,
    i: int,
    slot: int,
    mask: u32,
) -> Seq<u8> {
    let at = i + (5 + 41 * slot) / 8;
    let shift = ((5 + 41 * slot) % 8) as u32;
    let low = if slot == 0 {
        0x1Fu64
    } else if slot == 1 {
        0x3Fu64
    } else {
        0x7Fu64
    };
    let instr = window_value(buf, at);
    let norm = instr >> shift;
    if (mask >> slot as u32) & 1 != 0 && is_ia64_call(norm) {
        with_window(buf, at, (instr & low) | (ia64_absolute(start, i, norm) << shift))
    } else {
        buf
    }
}

/// The bundle at `i` with all three slots encoded.
#[verifier::opaque]
pub open spec fn ia64_bundle_encoded(start: u32, buf: Seq<u8>, i: int) -> Seq<u8> {
    let mask = call_slots(buf[i]);
    let b0 = ia64_slot_encoded(start, buf, i, 0, mask);
    let b1 = ia64_slot_encoded(start, b0, i, 1, mask);
    ia64_slot_encoded(start, b1, i, 2, mask)
}

/// `buf` with every whole bundle from `i` on encoded.
pub open spec fn ia64_encoded_from(start: u32, buf: Seq<u8>, i: int) -> Seq<u8>
    decreases buf.len() - i,
    via ia64_encoded_from_decreases
{
    if i < 0 || i + 16 > buf.len() {
        buf
    } else {
        ia64_encoded_from(start, ia64_bundle_encoded(start, buf, i), i + 16)
    }
}

#[via_fn]
proof fn ia64_encoded_from_decreases(start: u32, buf: Seq<u8>, i: int) {
    reveal(ia64_bundle_encoded);
}

/// Where the six bytes around slot `slot` of the bundle at `i` start.
spec fn window_at(i: int, slot: int) -> int {
    i + 5 * slot
}

/// How many bits of those bytes come before the slot.
spec fn window_shift(slot: int) -> u32 {
    if slot == 0 {
        5
    } else if slot == 1 {
        6
    } else {
        7
    }
}

/// The mask of those bits.
spec fn window_low(slot: int) -> u64 {
    if slot == 0 {
        0x1F
    } else if slot == 1 {
        0x3F
    } else {
        0x7F
    }
}

/// The slot `slot` of the bundle at `i`, and the bits behind it.
spec fn slot_value(b: Seq<u8>, i: int, slot: int) -> u64 {
    crate::bcj::le48(b, window_at(i, slot)) >> window_shift(slot)
}

/// The bits before it.
spec fn slot_low(b: Seq<u8>, i: int, slot: int) -> u64 {
    crate::bcj::le48(b, window_at(i, slot)) & window_low(slot)
}

/// A slot value encoded, where it is a call in a slot that `mask` names.
spec fn value_encoded(start: u32, i: int, slot: int, mask: u32, norm: u64) -> u64 {
    if (mask >> slot as u32) & 1 != 0 && crate::bcj::ia64_is_call(norm) {
        ia64_absolute(start, i, norm)
    } else {
        norm
    }
}

/// A slot value decoded, where it is a call in a slot that `mask` names.
spec fn value_decoded(start: u32, i: int, slot: int, mask: u32, norm: u64) -> u64 {
    if (mask >> slot as u32) & 1 != 0 && crate::bcj::ia64_is_call(norm) {
        crate::bcj::ia64_relative(start, i, norm)
    } else {
        norm
    }
}

/// Decoding a slot value undoes encoding it, which touches neither the low 13
/// bits nor those from bit 37 on.
proof fn lemma_ia64_value(start: u32, i: int, slot: int, mask: u32, norm: u64)
    requires
        start % 16 == 0,
        i % 16 == 0,
        norm < 0x0800_0000_0000,
    ensures
        ({
            let there = value_encoded(start, i, slot, mask, norm);
            &&& value_decoded(start, i, slot, mask, there) == norm
            &&& there & 0x1FFF == norm & 0x1FFF
            &&& there >> 37 == norm >> 37
        }),
{
    let at = crate::bcj::position(start, i);
    assert(at % 16 == 0);
    let addr = (((norm >> 13) & 0x0F_FFFF) as u32) | ((((norm >> 36) & 1) as u32) << 20);
    let sum = (addr << 4).wrapping_add(at);
    lemma_wrapping(addr << 4, at);
    let abs = sum >> 4;
    let there = (norm & !(0x8F_FFFFu64 << 13)) | (((abs & 0x0F_FFFF) as u64) << 13) | (((abs
        & 0x10_0000) as u64) << 16);
    let back = (((there >> 13) & 0x0F_FFFF) as u32) | ((((there >> 36) & 1) as u32) << 20);
    let diff = (back << 4).wrapping_sub(at);
    lemma_wrapping(back << 4, at);
    let rel = diff >> 4;
    assert(there & 0x1FFF == norm & 0x1FFF && there >> 37 == norm >> 37 && (there >> 37) & 0x0F == (
    norm >> 37) & 0x0F && (there >> 9) & 0x07 == (norm >> 9) & 0x07 && (there & !(0x8F_FFFFu64
        << 13)) | (((rel & 0x0F_FFFF) as u64) << 13) | (((rel & 0x10_0000) as u64) << 16) == norm)
        by (bit_vector)
        requires
            at % 16 == 0,
            addr == (((norm >> 13) & 0x0F_FFFF) as u32) | ((((norm >> 36) & 1) as u32) << 20),
            sum == ((addr << 4) + at) as u32,
            abs == sum >> 4,
            there == (norm & !(0x8F_FFFFu64 << 13)) | (((abs & 0x0F_FFFF) as u64) << 13) | (((abs
                & 0x10_0000) as u64) << 16),
            back == (((there >> 13) & 0x0F_FFFF) as u32) | ((((there >> 36) & 1) as u32) << 20),
            diff == ((back << 4) - at) as u32,
            rel == diff >> 4,
    ;
}

/// The six bytes of a window and its value determine each other.
proof fn lemma_le48(b: Seq<u8>, at: int)
    requires
        0 <= at,
        at + 6 <= b.len(),
    ensures
        ({
            let x = crate::bcj::le48(b, at);
            &&& x < 0x1_0000_0000_0000
            &&& x as u8 == b[at]
            &&& (x >> 8) as u8 == b[at + 1]
            &&& (x >> 16) as u8 == b[at + 2]
            &&& (x >> 24) as u8 == b[at + 3]
            &&& (x >> 32) as u8 == b[at + 4]
            &&& (x >> 40) as u8 == b[at + 5]
        }),
{
    let (b0, b1, b2, b3, b4, b5) = (b[at], b[at + 1], b[at + 2], b[at + 3], b[at + 4], b[at + 5]);
    let x = crate::bcj::le48(b, at);
    assert(x as u8 == b0 && (x >> 8) as u8 == b1 && (x >> 16) as u8 == b2 && (x >> 24) as u8 == b3
        && (x >> 32) as u8 == b4 && (x >> 40) as u8 == b5) by (bit_vector)
        requires
            x == b0 + 0x100 * b1 + 0x1_0000 * b2 + 0x100_0000 * b3 + 0x1_0000_0000 * b4
                + 0x100_0000_0000 * b5,
    ;
}

proof fn lemma_put48(b: Seq<u8>, at: int, v: u64)
    requires
        0 <= at,
        at + 6 <= b.len(),
        v < 0x1_0000_0000_0000,
    ensures
        crate::bcj::le48(crate::bcj::put48(b, at, v), at) == v,
{
    assert(v == (v as u8) + 0x100 * ((v >> 8) as u8) + 0x1_0000 * ((v >> 16) as u8) + 0x100_0000 * ((
    v >> 24) as u8) + 0x1_0000_0000 * ((v >> 32) as u8) + 0x100_0000_0000 * ((v >> 40) as u8))
        by (bit_vector)
        requires
            v < 0x1_0000_0000_0000,
    ;
}

/// What a step on slot `slot` does, given the value it makes of the slot: it
/// keeps the bits before the slot and all bytes outside the window. Where it
/// keeps the value's ends, it keeps the first two bytes of the window and the
/// top of the last one.
proof fn lemma_slot_put(b: Seq<u8>, i: int, slot: int, v: u64)
    requires
        0 <= i,
        i + 16 <= b.len(),
        0 <= slot < 3,
        v >> 37 == slot_value(b, i, slot) >> 37,
        v & 0x1FFF == slot_value(b, i, slot) & 0x1FFF,
    ensures
        ({
            let w = window_at(i, slot);
            let r = crate::bcj::put48(
                b,
                w,
                slot_low(b, i, slot) | (v << window_shift(slot)),
            );
            &&& slot_value(r, i, slot) == v
            &&& slot_low(r, i, slot) == slot_low(b, i, slot)
            &&& r[w] == b[w]
            &&& r[w + 1] == b[w + 1]
            &&& r[w + 5] & 0xC0 == b[w + 5] & 0xC0
        }),
{
    let w = window_at(i, slot);
    let x = crate::bcj::le48(b, w);
    let shift = window_shift(slot);
    let low = window_low(slot);
    lemma_le48(b, w);
    let y = (x & low) | (v << shift);
    assert(y < 0x1_0000_0000_0000 && y >> shift == v && y & low == x & low && y & 0xFFFF == x
        & 0xFFFF && y >> 46 == x >> 46) by (bit_vector)
        requires
            (shift == 5 && low == 0x1F) || (shift == 6 && low == 0x3F) || (shift == 7 && low
                == 0x7F),
            x < 0x1_0000_0000_0000,
            y == (x & low) | (v << shift),
            v >> 37 == (x >> shift) >> 37,
            v & 0x1FFF == (x >> shift) & 0x1FFF,
    ;
    lemma_put48(b, w, y);
    let r = crate::bcj::put48(b, w, y);
    lemma_le48(r, w);
    assert(y as u8 == x as u8 && (y >> 8) as u8 == (x >> 8) as u8 && ((y >> 40) as u8) & 0xC0 == ((x
        >> 40) as u8) & 0xC0) by (bit_vector)
        requires
            y & 0xFFFF == x & 0xFFFF,
            y >> 46 == x >> 46,
    ;
}

/// A slot whose window starts with `head` in place of its first byte has the
/// same value where the two agree on the bits of the slot.
proof fn lemma_slot_value_of(p: Seq<u8>, q: Seq<u8>, i: int, slot: int)
    requires
        0 <= i,
        i + 16 <= p.len(),
        p.len() == q.len(),
        0 <= slot < 3,
        slot == 0 ==> p[i] == q[i],
        p[window_at(i, slot)] & 0xC0 == q[window_at(i, slot)] & 0xC0,
        forall|k: int| 1 <= k < 6 ==> p[#[trigger] (window_at(i, slot) + k)] == q[window_at(i, slot)
            + k],
    ensures
        slot_value(p, i, slot) == slot_value(q, i, slot),
{
    let w = window_at(i, slot);
    assert(p[w + 1] == q[w + 1]);
    assert(p[w + 2] == q[w + 2]);
    assert(p[w + 3] == q[w + 3]);
    assert(p[w + 4] == q[w + 4]);
    assert(p[w + 5] == q[w + 5]);
    let x = crate::bcj::le48(p, w);
    let y = crate::bcj::le48(q, w);
    let shift = window_shift(slot);
    if slot > 0 {
        let (p0, q0) = (p[w], q[w]);
        let rest = (0x100 * p[w + 1] + 0x1_0000 * p[w + 2] + 0x100_0000 * p[w + 3] + 0x1_0000_0000
            * p[w + 4] + 0x100_0000_0000 * p[w + 5]) as u64;
        assert(x == p0 + rest && y == q0 + rest);
        assert(rest % 0x100 == 0);
        assert(x >> shift == y >> shift) by (bit_vector)
            requires
                shift == 6 || shift == 7,
                p0 & 0xC0 == q0 & 0xC0,
                x == p0 + rest,
                y == q0 + rest,
                rest % 0x100 == 0,
                rest < 0x1_0000_0000_0000,
        ;
    }
}

/// The bits before a slot stand in the first byte of its window.
proof fn lemma_slot_low_of(p: Seq<u8>, q: Seq<u8>, i: int, slot: int)
    requires
        0 <= i,
        i + 16 <= p.len(),
        p.len() == q.len(),
        0 <= slot < 3,
        p[window_at(i, slot)] == q[window_at(i, slot)],
    ensures
        slot_low(p, i, slot) == slot_low(q, i, slot),
{
    let w = window_at(i, slot);
    lemma_le48(p, w);
    lemma_le48(q, w);
    let x = crate::bcj::le48(p, w);
    let y = crate::bcj::le48(q, w);
    let low = window_low(slot);
    assert(x & low == y & low) by (bit_vector)
        requires
            low == 0x1F || low == 0x3F || low == 0x7F,
            x as u8 == y as u8,
    ;
}

/// Windows with the same slot and the same bits before it are the same bytes.
proof fn lemma_same_window(p: Seq<u8>, q: Seq<u8>, i: int, slot: int)
    requires
        0 <= i,
        i + 16 <= p.len(),
        p.len() == q.len(),
        0 <= slot < 3,
        slot_value(p, i, slot) == slot_value(q, i, slot),
        slot_low(p, i, slot) == slot_low(q, i, slot),
    ensures
        forall|k: int|
            window_at(i, slot) <= k < window_at(i, slot) + 6 ==> #[trigger] p[k] == q[k],
{
    let w = window_at(i, slot);
    lemma_le48(p, w);
    lemma_le48(q, w);
    let x = crate::bcj::le48(p, w);
    let y = crate::bcj::le48(q, w);
    let shift = window_shift(slot);
    let low = window_low(slot);
    assert(x == y) by (bit_vector)
        requires
            (shift == 5 && low == 0x1F) || (shift == 6 && low == 0x3F) || (shift == 7 && low
                == 0x7F),
            x >> shift == y >> shift,
            x & low == y & low,
    ;
}

/// What encoding slot `slot` of a bundle does.
proof fn lemma_slot_encoded(start: u32, b: Seq<u8>, i: int, slot: int, mask: u32)
    requires
        start % 16 == 0,
        i % 16 == 0,
        0 <= i,
        i + 16 <= b.len(),
        0 <= slot < 3,
    ensures
        ({
            let w = window_at(i, slot);
            let r = ia64_slot_encoded(start, b, i, slot, mask);
            &&& r.len() == b.len()
            &&& forall|k: int|
                0 <= k < b.len() && !(w <= k < w + 6) ==> #[trigger] r[k] == b[k]
            &&& slot_value(r, i, slot) == value_encoded(
                start,
                i,
                slot,
                mask,
                slot_value(b, i, slot),
            )
            &&& slot_low(r, i, slot) == slot_low(b, i, slot)
            &&& r[w] == b[w]
            &&& r[w + 1] == b[w + 1]
            &&& r[w + 5] & 0xC0 == b[w + 5] & 0xC0
        }),
{
    let w = window_at(i, slot);
    let x = crate::bcj::le48(b, w);
    let shift = window_shift(slot);
    lemma_le48(b, w);
    assert(x >> shift < 0x0800_0000_0000) by (bit_vector)
        requires
            shift == 5 || shift == 6 || shift == 7,
            x < 0x1_0000_0000_0000,
    ;
    let v = value_encoded(start, i, slot, mask, slot_value(b, i, slot));
    lemma_ia64_value(start, i, slot, mask, slot_value(b, i, slot));
    lemma_slot_put(b, i, slot, v);
}

/// What decoding slot `slot` of a bundle gives, where it holds an encoded
/// value.
proof fn lemma_slot_decoded(start: u32, c: Seq<u8>, i: int, slot: int, mask: u32, norm: u64)
    requires
        start % 16 == 0,
        i % 16 == 0,
        0 <= i,
        i + 16 <= c.len(),
        0 <= slot < 3,
        norm < 0x0800_0000_0000,
        slot_value(c, i, slot) == value_encoded(start, i, slot, mask, norm),
    ensures
        ({
            let w = window_at(i, slot);
            let r = crate::bcj::ia64_slot(start, c, i, slot, mask);
            &&& r.len() == c.len()
            &&& forall|k: int|
                0 <= k < c.len() && !(w <= k < w + 6) ==> #[trigger] r[k] == c[k]
            &&& slot_value(r, i, slot) == norm
            &&& slot_low(r, i, slot) == slot_low(c, i, slot)
        }),
{
    lemma_ia64_value(start, i, slot, mask, norm);
    lemma_slot_put(c, i, slot, norm);
}

/// Decoding a bundle undoes encoding it.
#[verifier::rlimit(40)]
proof fn lemma_ia64_bundle(start: u32, b: Seq<u8>, i: int, mask: u32)
    requires
        start % 16 == 0,
        i % 16 == 0,
        0 <= i,
        i + 16 <= b.len(),
        mask == crate::bcj::ia64_branch_slots(b[i]),
    ensures
        ia64_bundle_encoded(start, b, i).len() == b.len(),
        forall|k: int|
            0 <= k < b.len() && !(i <= k < i + 16) ==> #[trigger] ia64_bundle_encoded(
                start,
                b,
                i,
            )[k] == b[k],
        crate::bcj::ia64_bundle(start, ia64_bundle_encoded(start, b, i), i) == b,
{
    reveal(ia64_bundle_encoded);
    reveal(crate::bcj::ia64_bundle);
    let e0 = ia64_slot_encoded(start, b, i, 0, mask);
    lemma_slot_encoded(start, b, i, 0, mask);
    let e1 = ia64_slot_encoded(start, e0, i, 1, mask);
    lemma_slot_encoded(start, e0, i, 1, mask);
    lemma_slot_value_of(e0, b, i, 1);
    let e2 = ia64_slot_encoded(start, e1, i, 2, mask);
    lemma_slot_encoded(start, e1, i, 2, mask);
    lemma_slot_value_of(e1, b, i, 2);
    assert forall|slot: int| 0 <= slot < 3 implies #[trigger] slot_value(b, i, slot)
        < 0x0800_0000_0000 by {
        lemma_le48(b, window_at(i, slot));
        let x = crate::bcj::le48(b, window_at(i, slot));
        let shift = window_shift(slot);
        assert(x >> shift < 0x0800_0000_0000) by (bit_vector)
            requires
                shift == 5 || shift == 6 || shift == 7,
                x < 0x1_0000_0000_0000,
        ;
    }

    lemma_slot_value_of(e2, e0, i, 0);
    lemma_slot_low_of(e2, b, i, 0);
    let d0 = crate::bcj::ia64_slot(start, e2, i, 0, mask);
    lemma_slot_decoded(start, e2, i, 0, mask, slot_value(b, i, 0));
    lemma_same_window(d0, b, i, 0);

    lemma_slot_value_of(d0, e1, i, 1);
    lemma_slot_low_of(d0, b, i, 1);
    let d1 = crate::bcj::ia64_slot(start, d0, i, 1, mask);
    lemma_slot_decoded(start, d0, i, 1, mask, slot_value(b, i, 1));
    lemma_same_window(d1, b, i, 1);

    lemma_slot_value_of(d1, e2, i, 2);
    lemma_slot_low_of(d1, b, i, 2);
    let d2 = crate::bcj::ia64_slot(start, d1, i, 2, mask);
    lemma_slot_decoded(start, d1, i, 2, mask, slot_value(b, i, 2));
    lemma_same_window(d2, b, i, 2);
    assert(d2 =~= b);
}

/// Encoding bundles from `i` on keeps what stands before them.
proof fn lemma_ia64_kept(start: u32, buf: Seq<u8>, i: int)
    requires
        start % 16 == 0,
        i % 16 == 0,
        0 <= i,
    ensures
        ia64_encoded_from(start, buf, i).len() == buf.len(),
        forall|k: int|
            0 <= k < i && k < buf.len() ==> #[trigger] ia64_encoded_from(start, buf, i)[k]
                == buf[k],
    decreases buf.len() - i,
{
    if i + 16 <= buf.len() {
        lemma_ia64_bundle(start, buf, i, crate::bcj::ia64_branch_slots(buf[i]));
        lemma_ia64_kept(start, ia64_bundle_encoded(start, buf, i), i + 16);
    }
}

/// A step on a bundle depends on its own bytes alone.
#[verifier::rlimit(40)]
proof fn lemma_ia64_bundle_alone(start: u32, a: Seq<u8>, b: Seq<u8>, i: int)
    requires
        0 <= i,
        i + 16 <= a.len(),
        a.len() == b.len(),
        forall|k: int| i <= k < i + 16 ==> #[trigger] a[k] == b[k],
    ensures
        crate::bcj::ia64_bundle(start, a, i).len() == a.len(),
        crate::bcj::ia64_bundle(start, b, i).len() == b.len(),
        forall|k: int|
            i <= k < i + 16 ==> #[trigger] crate::bcj::ia64_bundle(start, a, i)[k]
                == crate::bcj::ia64_bundle(start, b, i)[k],
        forall|k: int|
            0 <= k < a.len() && !(i <= k < i + 16) ==> #[trigger] crate::bcj::ia64_bundle(
                start,
                a,
                i,
            )[k] == a[k],
{
    reveal(crate::bcj::ia64_bundle);
}

/// Decoding from `i` on what was encoded from `i` on gives back what stood
/// there.
#[verifier::rlimit(40)]
proof fn lemma_ia64_from(start: u32, buf: Seq<u8>, i: int)
    requires
        start % 16 == 0,
        i % 16 == 0,
        0 <= i,
    ensures
        crate::bcj::ia64_from(start, ia64_encoded_from(start, buf, i), i) == buf,
    decreases buf.len() - i,
{
    if i + 16 <= buf.len() {
        let mask = crate::bcj::ia64_branch_slots(buf[i]);
        let first = ia64_bundle_encoded(start, buf, i);
        lemma_ia64_bundle(start, buf, i, mask);
        lemma_ia64_kept(start, first, i + 16);
        let there = ia64_encoded_from(start, first, i + 16);
        lemma_ia64_bundle_alone(start, there, first, i);
        let undone = crate::bcj::ia64_bundle(start, there, i);
        lemma_ia64_rest(start, first, buf, i + 16);
        lemma_ia64_kept(start, buf, i + 16);
        let rest = ia64_encoded_from(start, buf, i + 16);
        assert forall|k: int| 0 <= k < buf.len() implies undone[k] == rest[k] by {
            if i <= k < i + 16 {
                assert(undone[k] == crate::bcj::ia64_bundle(start, first, i)[k]);
                assert(rest[k] == buf[k]);
            } else if k < i {
                assert(undone[k] == there[k]);
                assert(there[k] == first[k]);
                assert(rest[k] == buf[k]);
            } else {
                assert(undone[k] == there[k]);
            }
        }
        assert(undone =~= rest);
        lemma_ia64_from(start, buf, i + 16);
    }
}

/// Encoding from `i` on depends on nothing before `i`.
proof fn lemma_ia64_rest(start: u32, a: Seq<u8>, b: Seq<u8>, i: int)
    requires
        start % 16 == 0,
        i % 16 == 0,
        0 <= i,
        a.len() == b.len(),
        forall|k: int| i <= k < a.len() ==> #[trigger] a[k] == b[k],
    ensures
        forall|k: int|
            i <= k < a.len() ==> #[trigger] ia64_encoded_from(start, a, i)[k]
                == ia64_encoded_from(start, b, i)[k],
    decreases a.len() - i,
{
    if i + 16 <= a.len() {
        let pa = ia64_bundle_encoded(start, a, i);
        let pb = ia64_bundle_encoded(start, b, i);
        lemma_ia64_bundle(start, a, i, crate::bcj::ia64_branch_slots(a[i]));
        lemma_ia64_bundle(start, b, i, crate::bcj::ia64_branch_slots(b[i]));
        lemma_ia64_encoded_alone(start, a, b, i);
        lemma_ia64_rest(start, pa, pb, i + 16);
        lemma_ia64_kept(start, pa, i + 16);
        lemma_ia64_kept(start, pb, i + 16);
        assert forall|k: int| i <= k < a.len() implies #[trigger] ia64_encoded_from(start, a, i)[k]
            == ia64_encoded_from(start, b, i)[k] by {
            if k < i + 16 {
                assert(ia64_encoded_from(start, pa, i + 16)[k] == pa[k]);
                assert(ia64_encoded_from(start, pb, i + 16)[k] == pb[k]);
            }
        }
    }
}

#[verifier::rlimit(40)]
proof fn lemma_ia64_encoded_alone(start: u32, a: Seq<u8>, b: Seq<u8>, i: int)
    requires
        0 <= i,
        i + 16 <= a.len(),
        a.len() == b.len(),
        forall|k: int| i <= k < i + 16 ==> #[trigger] a[k] == b[k],
    ensures
        forall|k: int|
            i <= k < i + 16 ==> #[trigger] ia64_bundle_encoded(start, a, i)[k]
                == ia64_bundle_encoded(start, b, i)[k],
{
    reveal(ia64_bundle_encoded);
}

/// Decoding undoes the IA-64 encoder, for every block whose start is aligned.
proof fn ia64_is_undone(start: u32, buf: Seq<u8>)
    requires
        start % 16 == 0,
    ensures
        crate::bcj::decoded(Bcj::Ia64, start, ia64_encoded_from(start, buf, 0)) == buf,
{
    lemma_ia64_from(start, buf, 0);
}

// ---- x86 ----

/// The operand `src` with the position `at` added, once more with the low
/// bits flipped where the first result looks converted.
pub open spec fn x86_shifted_up(mask: u32, src: u32, at: u32) -> u32 {
    let once = src.wrapping_add(at);
    if mask != 0 && is_sign_byte(flipped_top(mask, once)) {
        (once ^ flipped_bits(mask)).wrapping_add(at)
    } else {
        once
    }
}

/// The absolute operand of the branch at `i`.
pub open spec fn x86_absolute(start: u32, i: int, mask: u32, src: u32) -> u32 {
    sign_extended(
        x86_shifted_up(mask, src, place(start, i).wrapping_add(5)),
    )
}

/// `buf` encoded from `i` on, where bit `b` of `mask` tells of an opcode at
/// `i - 1 - b` that was not converted.
pub open spec fn x86_encoded_from(start: u32, buf: Seq<u8>, i: int, mask: u32) -> Seq<u8>
    decreases buf.len() - i,
{
    if i < 0 || i + 4 >= buf.len() {
        buf
    } else if buf[i] & 0xFE != 0xE8 {
        x86_encoded_from(start, buf, i + 1, (mask << 1) & 7)
    } else if x86_converts(buf, i, mask) {
        x86_encoded_from(
            start,
            with_operand(
                buf,
                i + 1,
                x86_absolute(start, i, mask, crate::bytes::le32(buf, i + 1)),
            ),
            i + 5,
            0,
        )
    } else {
        x86_encoded_from(start, buf, i + 1, ((mask << 1) | 1) & 7)
    }
}

/// Whether the opcode at `i` is converted: its operand looks like a branch
/// target, and at most one opcode before it is in doubt, which stays one that
/// is not.
pub open spec fn x86_converts(buf: Seq<u8>, i: int, mask: u32) -> bool {
    &&& mask == 0 || (one_in_doubt(mask) && !is_sign_byte(
        buf[i + 4 - doubt_reach(mask)],
    ))
    &&& is_sign_byte(buf[i + 4])
}

/// `buf` decoded from `i` on, with `mask` as above.
spec fn x86_decoded_from(start: u32, buf: Seq<u8>, i: int, mask: u32) -> Seq<u8>
    decreases buf.len() - i,
{
    if i < 0 || i + 4 >= buf.len() {
        buf
    } else if buf[i] & 0xFE != 0xE8 {
        x86_decoded_from(start, buf, i + 1, (mask << 1) & 7)
    } else if x86_converts(buf, i, mask) {
        x86_decoded_from(
            start,
            crate::bcj::put32(
                buf,
                i + 1,
                crate::bcj::x86_operand(start, i, mask, crate::bytes::le32(buf, i + 1)),
            ),
            i + 5,
            0,
        )
    } else {
        x86_decoded_from(start, buf, i + 1, ((mask << 1) | 1) & 7)
    }
}

/// Telling of recent opcodes by the distance to the last one comes to the
/// same as telling of the last three bytes.
proof fn lemma_x86_mask(start: u32, buf: Seq<u8>, i: int, prev: int, mask: u32)
    requires
        prev < i,
    ensures
        crate::bcj::x86_from(start, buf, i, prev, mask) == x86_decoded_from(
            start,
            buf,
            i,
            crate::bcj::x86_shifted(mask, i - prev),
        ),
    decreases buf.len() - i,
{
    let m = crate::bcj::x86_shifted(mask, i - prev);
    assert((mask << 1) & 7 == ((mask & 7) << 1) & 7 && (mask << 2) & 7 == (((mask << 1) & 7) << 1)
        & 7 && (((mask << 2) & 7) << 1) & 7 == 0 && ((0u32 << 1) & 7) == 0) by (bit_vector);
    if 0 <= i && i + 4 < buf.len() {
        if buf[i] & 0xFE != 0xE8 {
            lemma_x86_mask(start, buf, i + 1, prev, mask);
        } else if x86_converts(buf, i, m) {
            let src = crate::bytes::le32(buf, i + 1);
            let put = crate::bcj::put32(buf, i + 1, crate::bcj::x86_operand(start, i, m, src));
            lemma_x86_mask(start, put, i + 5, i, m);
        } else {
            lemma_x86_mask(start, buf, i + 1, i, (m << 1) | 1);
        }
    }
}

/// An operand that is encoded under a mask of at most one opcode is decoded to
/// itself, and what it is encoded to still looks converted and does not make
/// that opcode look so.
proof fn lemma_x86_operand(start: u32, i: int, mask: u32, src: u32)
    requires
        crate::bcj::x86_allowed(mask),
        mask != 0 ==> !crate::bcj::top_byte(crate::bcj::x86_high_byte(mask, src)),
        crate::bcj::top_byte((src >> 24) as u8),
    ensures
        ({
            let there = x86_absolute(start, i, mask, src);
            &&& crate::bcj::x86_operand(start, i, mask, there) == src
            &&& crate::bcj::top_byte((there >> 24) as u8)
            &&& mask != 0 ==> !crate::bcj::top_byte(crate::bcj::x86_high_byte(mask, there))
        }),
{
    let at = crate::bcj::position(start, i).wrapping_add(5);
    let low = crate::bcj::x86_low_bits(mask);
    let up1 = src.wrapping_add(at);
    lemma_wrapping(src, at);
    let up2 = (up1 ^ low).wrapping_add(at);
    lemma_wrapping(up1 ^ low, at);
    let up = x86_shifted_up(mask, src, at);
    let up_low = up & 0x01FF_FFFF;
    let up_sign = 0u32.wrapping_sub(up_low & 0x0100_0000);
    lemma_wrapping(0, up_low & 0x0100_0000);
    let there = up_low | up_sign;
    let down1 = there.wrapping_sub(at);
    lemma_wrapping(there, at);
    let down2 = (down1 ^ low).wrapping_sub(at);
    lemma_wrapping(down1 ^ low, at);
    let down = crate::bcj::x86_unshifted(mask, there, at);
    let down_low = down & 0x01FF_FFFF;
    let down_sign = 0u32.wrapping_sub(down_low & 0x0100_0000);
    lemma_wrapping(0, down_low & 0x0100_0000);
    let shift: u32 = if mask == 1 {
        16
    } else if mask == 2 {
        8
    } else {
        0
    };
    assert forall|v: u32| mask != 0 implies #[trigger] crate::bcj::x86_high_byte(mask, v) == (v
        >> shift) as u8 by {
        assert(v >> 0u32 == v) by (bit_vector);
    }
    assert(crate::bcj::x86_high_byte(mask, up1) == flipped_top(mask, up1));
    let doubt = mask != 0;
    assert(down_low | down_sign == src && ((there >> 24) as u8 == 0 || (there >> 24) as u8 == 0xFF)
        && (doubt ==> (there >> shift) as u8 != 0 && (there >> shift) as u8 != 0xFF))
        by (bit_vector)
        requires
            doubt ==> ((shift == 16 && low == 0xFF_FFFF) || (shift == 8 && low == 0xFFFF) || (shift
                == 0 && low == 0xFF)),
            doubt ==> (src >> shift) as u8 != 0 && (src >> shift) as u8 != 0xFF,
            (src >> 24) as u8 == 0 || (src >> 24) as u8 == 0xFF,
            up1 == (src + at) as u32,
            up2 == ((up1 ^ low) + at) as u32,
            doubt && ((up1 >> shift) as u8 == 0 || (up1 >> shift) as u8 == 0xFF) ==> up == up2,
            !(doubt && ((up1 >> shift) as u8 == 0 || (up1 >> shift) as u8 == 0xFF)) ==> up == up1,
            up_low == up & 0x01FF_FFFF,
            up_sign == (0u32 - (up_low & 0x0100_0000)) as u32,
            there == up_low | up_sign,
            down1 == (there - at) as u32,
            down2 == ((down1 ^ low) - at) as u32,
            doubt && ((down1 >> shift) as u8 == 0 || (down1 >> shift) as u8 == 0xFF) ==> down
                == down2,
            !(doubt && ((down1 >> shift) as u8 == 0 || (down1 >> shift) as u8 == 0xFF)) ==> down
                == down1,
            down_low == down & 0x01FF_FFFF,
            down_sign == (0u32 - (down_low & 0x0100_0000)) as u32,
    ;
}

/// What the operand at `i + 1` is encoded to, given that the opcode at `i` is
/// converted.
proof fn lemma_x86_converted(start: u32, buf: Seq<u8>, i: int, mask: u32)
    requires
        0 <= i,
        i + 4 < buf.len(),
        x86_converts(buf, i, mask),
    ensures
        ({
            let src = crate::bytes::le32(buf, i + 1);
            let there = x86_absolute(start, i, mask, src);
            let put = crate::bcj::put32(buf, i + 1, there);
            &&& put.len() == buf.len()
            &&& crate::bytes::le32(put, i + 1) == there
            &&& crate::bcj::x86_operand(start, i, mask, there) == src
            &&& crate::bcj::top_byte(put[i + 4])
            &&& mask != 0 ==> !crate::bcj::top_byte(put[i + 4 - crate::bcj::x86_reach(mask)])
            &&& forall|k: int|
                i < k < i + 5 ==> #[trigger] crate::bcj::put32(put, i + 1, src)[k] == buf[k]
        }),
{
    let src = crate::bytes::le32(buf, i + 1);
    let (b0, b1, b2, b3) = (buf[i + 1], buf[i + 2], buf[i + 3], buf[i + 4]);
    assert(src as u8 == b0 && (src >> 8) as u8 == b1 && (src >> 16) as u8 == b2 && (src >> 24) as u8
        == b3) by (bit_vector)
        requires
            src == b0 + 0x100 * b1 + 0x1_0000 * b2 + 0x100_0000 * b3,
    ;
    lemma_x86_operand(start, i, mask, src);
    let there = x86_absolute(start, i, mask, src);
    assert(there == (there as u8) + 0x100 * ((there >> 8) as u8) + 0x1_0000 * ((there >> 16) as u8)
        + 0x100_0000 * ((there >> 24) as u8)) by (bit_vector);
}

/// Encoding from `i` on keeps what stands up to `i`.
proof fn lemma_x86_kept(start: u32, buf: Seq<u8>, i: int, mask: u32)
    requires
        0 <= i,
    ensures
        x86_encoded_from(start, buf, i, mask).len() == buf.len(),
        forall|k: int|
            0 <= k <= i && k < buf.len() ==> #[trigger] x86_encoded_from(start, buf, i, mask)[k]
                == buf[k],
    decreases buf.len() - i,
{
    if i + 4 < buf.len() {
        if buf[i] & 0xFE != 0xE8 {
            lemma_x86_kept(start, buf, i + 1, (mask << 1) & 7);
        } else if x86_converts(buf, i, mask) {
            let src = crate::bytes::le32(buf, i + 1);
            let put = crate::bcj::put32(buf, i + 1, x86_absolute(start, i, mask, src));
            lemma_x86_kept(start, put, i + 5, 0);
        } else {
            lemma_x86_kept(start, buf, i + 1, ((mask << 1) | 1) & 7);
        }
    }
}

/// Whether a call or jump opcode stands at `i`.
spec fn is_opcode(buf: Seq<u8>, i: int) -> bool {
    buf[i] & 0xFE == 0xE8
}

/// Whether bit `b` of `mask` is set.
spec fn in_doubt(mask: u32, b: int) -> bool {
    if b == 0 {
        mask & 1 != 0
    } else if b == 1 {
        mask & 2 != 0
    } else {
        mask & 4 != 0
    }
}

proof fn lemma_in_doubt(mask: u32)
    ensures
        in_doubt(mask, 0) ==> in_doubt((mask << 1) & 7, 1),
        in_doubt(mask, 1) ==> in_doubt((mask << 1) & 7, 2),
        in_doubt(mask, 0) ==> in_doubt(((mask << 1) | 1) & 7, 1),
        in_doubt(mask, 1) ==> in_doubt(((mask << 1) | 1) & 7, 2),
        in_doubt(((mask << 1) | 1) & 7, 0),
{
    assert((mask & 1 != 0 ==> ((mask << 1) & 7) & 2 != 0) && (mask & 2 != 0 ==> ((mask << 1) & 7) & 4
        != 0) && (mask & 1 != 0 ==> (((mask << 1) | 1) & 7) & 2 != 0) && (mask & 2 != 0 ==> (((mask
        << 1) | 1) & 7) & 4 != 0) && (((mask << 1) | 1) & 7) & 1 != 0) by (bit_vector);
}

/// Where the opcode at `i - 1 - b` was not converted, encoding from `i` on
/// leaves open or shut whether its operand looks like a branch target.
proof fn lemma_x86_doubt_stays(start: u32, buf: Seq<u8>, i: int, mask: u32, b: int)
    requires
        0 <= i,
        0 <= b < 3,
        in_doubt(mask, b),
        i + 3 - b < buf.len(),
    ensures
        crate::bcj::top_byte(x86_encoded_from(start, buf, i, mask)[i + 3 - b])
            == crate::bcj::top_byte(buf[i + 3 - b]),
    decreases buf.len() - i,
{
    if i + 4 < buf.len() {
        lemma_in_doubt(mask);
        if buf[i] & 0xFE == 0xE8 && x86_converts(buf, i, mask) {
            lemma_x86_converted(start, buf, i, mask);
            let src = crate::bytes::le32(buf, i + 1);
            let put = crate::bcj::put32(buf, i + 1, x86_absolute(start, i, mask, src));
            lemma_x86_kept(start, put, i + 5, 0);
            assert(crate::bcj::x86_reach(mask) == b + 1) by {
                assert(1u32 & 2 == 0 && 1u32 & 4 == 0 && 2u32 & 1 == 0 && 2u32 & 4 == 0 && 4u32 & 1
                    == 0 && 4u32 & 2 == 0 && 0u32 & 1 == 0 && 0u32 & 2 == 0 && 0u32 & 4 == 0)
                    by (bit_vector);
            }
            assert(x86_encoded_from(start, put, i + 5, 0)[i + 3 - b] == put[i + 3 - b]);
        } else {
            let next = if buf[i] & 0xFE != 0xE8 {
                (mask << 1) & 7
            } else {
                ((mask << 1) | 1) & 7
            };
            if b < 2 {
                lemma_x86_doubt_stays(start, buf, i + 1, next, b + 1);
            } else {
                lemma_x86_kept(start, buf, i + 1, next);
                assert(x86_encoded_from(start, buf, i + 1, next)[i + 1] == buf[i + 1]);
            }
        }
    }
}

/// Encoding from `i` on depends on nothing before `i`.
proof fn lemma_x86_rest(start: u32, a: Seq<u8>, b: Seq<u8>, i: int, mask: u32)
    requires
        0 <= i,
        a.len() == b.len(),
        forall|k: int| i <= k < a.len() ==> #[trigger] a[k] == b[k],
    ensures
        forall|k: int|
            i <= k < a.len() ==> #[trigger] x86_encoded_from(start, a, i, mask)[k]
                == x86_encoded_from(start, b, i, mask)[k],
    decreases a.len() - i,
{
    if i + 4 < a.len() {
        if is_opcode(a, i) && x86_converts(a, i, mask) {
            let src = crate::bytes::le32(a, i + 1);
            let there = x86_absolute(start, i, mask, src);
            let pa = crate::bcj::put32(a, i + 1, there);
            let pb = crate::bcj::put32(b, i + 1, there);
            lemma_x86_rest(start, pa, pb, i + 5, 0);
            lemma_x86_kept(start, pa, i + 5, 0);
            lemma_x86_kept(start, pb, i + 5, 0);
            assert forall|k: int| i <= k < a.len() implies #[trigger] x86_encoded_from(
                start,
                a,
                i,
                mask,
            )[k] == x86_encoded_from(start, b, i, mask)[k] by {
                if k < i + 5 {
                    assert(x86_encoded_from(start, pa, i + 5, 0)[k] == pa[k]);
                    assert(x86_encoded_from(start, pb, i + 5, 0)[k] == pb[k]);
                    assert(pa[k] == pb[k]);
                }
            }
        } else {
            let next = if !is_opcode(a, i) {
                (mask << 1) & 7
            } else {
                ((mask << 1) | 1) & 7
            };
            lemma_x86_rest(start, a, b, i + 1, next);
            lemma_x86_kept(start, a, i + 1, next);
            lemma_x86_kept(start, b, i + 1, next);
            assert forall|k: int| i <= k < a.len() implies #[trigger] x86_encoded_from(
                start,
                a,
                i,
                mask,
            )[k] == x86_encoded_from(start, b, i, mask)[k] by {
                if k == i {
                    assert(x86_encoded_from(start, a, i + 1, next)[k] == a[k]);
                    assert(x86_encoded_from(start, b, i + 1, next)[k] == b[k]);
                }
            }
        }
    }
}

/// Decoding from `i` on what was encoded from `i` on gives back what stood
/// there.
proof fn lemma_x86_from(start: u32, buf: Seq<u8>, i: int, mask: u32)
    requires
        0 <= i,
        mask <= 7,
    ensures
        x86_decoded_from(start, x86_encoded_from(start, buf, i, mask), i, mask) == buf,
    decreases buf.len() - i,
{
    let there = x86_encoded_from(start, buf, i, mask);
    lemma_x86_kept(start, buf, i, mask);
    if i + 4 < buf.len() {
        assert((mask << 1) & 7 <= 7 && ((mask << 1) | 1) & 7 <= 7) by (bit_vector);
        if buf[i] & 0xFE != 0xE8 {
            lemma_x86_from(start, buf, i + 1, (mask << 1) & 7);
        } else if x86_converts(buf, i, mask) {
            lemma_x86_converted(start, buf, i, mask);
            let src = crate::bytes::le32(buf, i + 1);
            let put = crate::bcj::put32(buf, i + 1, x86_absolute(start, i, mask, src));
            lemma_x86_kept(start, put, i + 5, 0);
            assert forall|k: int| 0 <= k < i + 5 implies there[k] == put[k] by {
                assert(x86_encoded_from(start, put, i + 5, 0)[k] == put[k]);
            }
            assert(crate::bytes::le32(there, i + 1) == crate::bytes::le32(put, i + 1));
            assert(x86_converts(there, i, mask));
            let undone = crate::bcj::put32(there, i + 1, src);
            let rest = x86_encoded_from(start, buf, i + 5, 0);
            lemma_x86_rest(start, put, buf, i + 5, 0);
            lemma_x86_kept(start, buf, i + 5, 0);
            assert forall|k: int| 0 <= k < buf.len() implies undone[k] == rest[k] by {
                if k <= i {
                    assert(rest[k] == buf[k]);
                } else if k < i + 5 {
                    assert(crate::bcj::put32(put, i + 1, src)[k] == buf[k]);
                    assert(rest[k] == buf[k]);
                } else {
                    assert(x86_encoded_from(start, put, i + 5, 0)[k] == rest[k]);
                }
            }
            assert(undone =~= rest);
            lemma_x86_from(start, buf, i + 5, 0);
        } else {
            let next = ((mask << 1) | 1) & 7;
            lemma_in_doubt(mask);
            lemma_x86_doubt_stays(start, buf, i + 1, next, 0);
            if crate::bcj::x86_allowed(mask) && mask != 0 {
                let b = crate::bcj::x86_reach(mask) - 1;
                assert(in_doubt(mask, b)) by {
                    assert(1u32 & 1 != 0 && 2u32 & 2 != 0 && 4u32 & 4 != 0) by (bit_vector);
                }
                lemma_x86_doubt_stays(start, buf, i, mask, b);
            }
            assert(!x86_converts(there, i, mask));
            lemma_x86_from(start, buf, i + 1, next);
        }
    }
}

/// Decoding undoes the x86 encoder, for every block.
proof fn x86_is_undone(start: u32, buf: Seq<u8>)
    ensures
        crate::bcj::decoded(Bcj::X86, start, x86_encoded_from(start, buf, 0, 0)) == buf,
{
    lemma_x86_mask(start, x86_encoded_from(start, buf, 0, 0), 0, -1, 0);
    assert(0u32 & 7 == 0) by (bit_vector);
    lemma_x86_from(start, buf, 0, 0);
}

// ---- all of them ----

/// `buf` run through the converter `kind`.
pub open spec fn encoded(kind: Bcj, start: u32, buf: Seq<u8>) -> Seq<u8> {
    match kind {
        Bcj::X86 => x86_encoded_from(start, buf, 0, 0),
        Bcj::PowerPc => powerpc_encoded(start, buf),
        Bcj::Ia64 => ia64_encoded_from(start, buf, 0),
        Bcj::Arm => arm_encoded(start, buf),
        Bcj::ArmThumb => armthumb_encoded_from(start, buf, 0),
        Bcj::Sparc => sparc_encoded(start, buf),
    }
}

/// The alignment of a converter's instructions.
pub open spec fn alignment(kind: Bcj) -> u32 {
    match kind {
        Bcj::X86 => 1,
        Bcj::PowerPc => 4,
        Bcj::Ia64 => 16,
        Bcj::Arm => 4,
        Bcj::ArmThumb => 2,
        Bcj::Sparc => 4,
    }
}

/// Decoding a block undoes its encoder, whatever the block holds, where the
/// block began at a multiple of the alignment.
pub proof fn decoding_undoes_encoding(kind: Bcj, start: u32, buf: Seq<u8>)
    requires
        start % alignment(kind) == 0,
    ensures
        crate::bcj::decoded(kind, start, encoded(kind, start, buf)) == buf,
{
    match kind {
        Bcj::X86 => x86_is_undone(start, buf),
        Bcj::PowerPc => powerpc_is_undone(start, buf),
        Bcj::Ia64 => ia64_is_undone(start, buf),
        Bcj::Arm => arm_is_undone(start, buf),
        Bcj::ArmThumb => armthumb_is_undone(start, buf),
        Bcj::Sparc => sparc_is_undone(start, buf),
    }
}

} // verus!
