//! Branch-call-jump converters, in decode direction.
//!
//! `mksquashfs -comp xz -Xbcj <arch>` may run a block through such a
//! converter before compressing it: the relative targets of branch
//! instructions are replaced by absolute ones, which repeat more often and
//! so compress better. Each converter here undoes that over a whole block
//! that began at stream position `start`.

use vstd::prelude::*;

use crate::bytes::get_le32;
use crate::error::{Error, Result};

verus! {

/// The converters, one for each instruction set.
#[derive(Debug, Clone, Copy, PartialEq, Eq, Structural)]
pub enum Bcj {
    X86,
    PowerPc,
    Ia64,
    Arm,
    ArmThumb,
    Sparc,
}

/// The converter that an xz filter id names.
pub open spec fn bcj_named(id: u64) -> Result<Bcj> {
    if id == 0x04 {
        Ok(Bcj::X86)
    } else if id == 0x05 {
        Ok(Bcj::PowerPc)
    } else if id == 0x06 {
        Ok(Bcj::Ia64)
    } else if id == 0x07 {
        Ok(Bcj::Arm)
    } else if id == 0x08 {
        Ok(Bcj::ArmThumb)
    } else if id == 0x09 {
        Ok(Bcj::Sparc)
    } else if id == 0x0A {
        Err(Error::BadMetadata("xz: the ARM64 BCJ filter is not implemented"))
    } else if id == 0x0B {
        Err(Error::BadMetadata("xz: the RISC-V BCJ filter is not implemented"))
    } else if id == 0x03 {
        Err(Error::BadMetadata("xz: the delta filter is not implemented"))
    } else {
        Err(Error::BadMetadata("xz: unknown filter in the block's chain"))
    }
}

impl Bcj {
    /// The converter with this xz filter id.
    pub fn from_id(id: u64) -> (r: Result<Self>)
        ensures
            r == bcj_named(id),
    {
        Ok(
            match id {
                0x04 => Bcj::X86,
                0x05 => Bcj::PowerPc,
                0x06 => Bcj::Ia64,
                0x07 => Bcj::Arm,
                0x08 => Bcj::ArmThumb,
                0x09 => Bcj::Sparc,
                0x0A => {
                    return Err(
                        Error::BadMetadata("xz: the ARM64 BCJ filter is not implemented"),
                    );
                },
                0x0B => {
                    return Err(
                        Error::BadMetadata("xz: the RISC-V BCJ filter is not implemented"),
                    );
                },
                0x03 => {
                    return Err(Error::BadMetadata("xz: the delta filter is not implemented"));
                },
                _ => {
                    return Err(Error::BadMetadata("xz: unknown filter in the block's chain"));
                },
            },
        )
    }
}

/// `buf` with the converter `kind` undone.
pub open spec fn decoded(kind: Bcj, start: u32, buf: Seq<u8>) -> Seq<u8> {
    match kind {
        Bcj::X86 => x86_from(start, buf, 0, -1, 0),
        Bcj::PowerPc => powerpc_decoded(start, buf),
        Bcj::Ia64 => ia64_from(start, buf, 0),
        Bcj::Arm => arm_decoded(start, buf),
        Bcj::ArmThumb => armthumb_from(start, buf, 0),
        Bcj::Sparc => sparc_decoded(start, buf),
    }
}

/// Undoes `kind`'s conversion over a whole block that began at stream
/// position `start`.
pub fn decode(kind: Bcj, start: u32, buf: &mut Vec<u8>)
    ensures
        final(buf)@ == decoded(kind, start, old(buf)@),
        final(buf)@.len() == old(buf)@.len(),
{
    match kind {
        Bcj::X86 => x86(start, buf),
        Bcj::PowerPc => powerpc(start, buf),
        Bcj::Ia64 => ia64(start, buf),
        Bcj::Arm => arm(start, buf),
        Bcj::ArmThumb => armthumb(start, buf),
        Bcj::Sparc => sparc(start, buf),
    }
}

/// The position of offset `i` of a block that began at `start`, as 32 bits
/// hold it.
pub open spec fn position(start: u32, i: int) -> u32 {
    ((start + i) % 0x1_0000_0000) as u32
}

fn position_of(start: u32, i: usize) -> (r: u32)
    ensures
        r == position(start, i as int),
{
    proof {
        let wide = i as u64;
        assert(wide as u32 == wide % 0x1_0000_0000) by (bit_vector);
    }
    start.wrapping_add(i as u32)
}

// ---- fixed-width instruction sets: one 32-bit word at a time ----

/// The big-endian word at `i`.
pub open spec fn be32(b: Seq<u8>, i: int) -> u32 {
    (0x100_0000 * b[i] + 0x1_0000 * b[i + 1] + 0x100 * b[i + 2] + b[i + 3]) as u32
}

/// Byte `k` of `w` in big-endian order.
pub open spec fn be_byte(w: u32, k: int) -> u8 {
    if k == 0 {
        (w >> 24) as u8
    } else if k == 1 {
        (w >> 16) as u8
    } else if k == 2 {
        (w >> 8) as u8
    } else {
        w as u8
    }
}

fn get_be32(b: &Vec<u8>, i: usize) -> (r: u32)
    requires
        i + 4 <= b.len(),
    ensures
        r == be32(b@, i as int),
{
    0x100_0000 * (b[i] as u32) + 0x1_0000 * (b[i + 1] as u32) + 0x100 * (b[i + 2] as u32) + b[i
        + 3] as u32
}

fn put_be32(b: &mut Vec<u8>, i: usize, w: u32)
    requires
        i + 4 <= old(b).len(),
    ensures
        final(b)@ == old(b)@.update(i as int, be_byte(w, 0)).update(i + 1, be_byte(w, 1)).update(
            i + 2,
            be_byte(w, 2),
        ).update(i + 3, be_byte(w, 3)),
{
    b[i] = (w >> 24) as u8;
    b[i + 1] = (w >> 16) as u8;
    b[i + 2] = (w >> 8) as u8;
    b[i + 3] = w as u8;
}

/// Whether `w` is a PowerPC `bl` with an absolute target left by the encoder.
pub open spec fn powerpc_branch(w: u32) -> bool {
    w & 0xFC00_0003 == 0x4800_0001
}

/// The `bl` at `i` with its target made relative again.
pub open spec fn powerpc_word(start: u32, i: int, w: u32) -> u32 {
    ((w & 0x03FF_FFFC).wrapping_sub(position(start, i)) & 0x03FF_FFFC) | 0x4800_0001
}

/// Every whole aligned word that is a branch converted, all else kept.
pub open spec fn powerpc_decoded(start: u32, buf: Seq<u8>) -> Seq<u8> {
    Seq::new(
        buf.len(),
        |k: int|
            {
                let i = k - k % 4;
                if i + 4 <= buf.len() && powerpc_branch(be32(buf, i)) {
                    be_byte(powerpc_word(start, i, be32(buf, i)), k % 4)
                } else {
                    buf[k]
                }
            },
    )
}

fn powerpc(start: u32, buf: &mut Vec<u8>)
    ensures
        final(buf)@ == powerpc_decoded(start, old(buf)@),
{
    let len: usize = buf.len();
    let ghost orig = buf@;
    let mut i: usize = 0;
    while len - i >= 4
        invariant
            i % 4 == 0,
            i <= len,
            len == buf@.len(),
            orig == old(buf)@,
            len == orig.len(),
            forall|k: int| 0 <= k < i ==> buf@[k] == powerpc_decoded(start, orig)[k],
            forall|k: int| i <= k < len ==> buf@[k] == orig[k],
        decreases len - i,
    {
        let instr: u32 = get_be32(buf, i);
        if instr & 0xFC00_0003 == 0x4800_0001 {
            let target: u32 = (instr & 0x03FF_FFFC).wrapping_sub(position_of(start, i));
            put_be32(buf, i, (target & 0x03FF_FFFC) | 0x4800_0001);
        }
        i = i + 4;
    }
    assert(buf@ =~= powerpc_decoded(start, orig));
}

/// Whether `w` is a SPARC `call` with an absolute target left by the encoder.
pub open spec fn sparc_branch(w: u32) -> bool {
    w >> 22 == 0x100 || w >> 22 == 0x1FF
}

/// The `call` at `i` with its target made relative again.
pub open spec fn sparc_word(start: u32, i: int, w: u32) -> u32 {
    let t = (w << 2).wrapping_sub(position(start, i)) >> 2;
    0x4000_0000u32.wrapping_sub(t & 0x40_0000) | 0x4000_0000 | (t & 0x3F_FFFF)
}

/// Every whole aligned word that is a call converted, all else kept.
pub open spec fn sparc_decoded(start: u32, buf: Seq<u8>) -> Seq<u8> {
    Seq::new(
        buf.len(),
        |k: int|
            {
                let i = k - k % 4;
                if i + 4 <= buf.len() && sparc_branch(be32(buf, i)) {
                    be_byte(sparc_word(start, i, be32(buf, i)), k % 4)
                } else {
                    buf[k]
                }
            },
    )
}

fn sparc(start: u32, buf: &mut Vec<u8>)
    ensures
        final(buf)@ == sparc_decoded(start, old(buf)@),
{
    let len: usize = buf.len();
    let ghost orig = buf@;
    let mut i: usize = 0;
    while len - i >= 4
        invariant
            i % 4 == 0,
            i <= len,
            len == buf@.len(),
            orig == old(buf)@,
            len == orig.len(),
            forall|k: int| 0 <= k < i ==> buf@[k] == sparc_decoded(start, orig)[k],
            forall|k: int| i <= k < len ==> buf@[k] == orig[k],
        decreases len - i,
    {
        let instr: u32 = get_be32(buf, i);
        if instr >> 22 == 0x100 || instr >> 22 == 0x1FF {
            let t: u32 = (instr << 2).wrapping_sub(position_of(start, i)) >> 2;
            let back: u32 = 0x4000_0000u32.wrapping_sub(t & 0x40_0000) | 0x4000_0000 | (t
                & 0x3F_FFFF);
            put_be32(buf, i, back);
        }
        i = i + 4;
    }
    assert(buf@ =~= sparc_decoded(start, orig));
}

/// The 24-bit little-endian operand at `i`.
pub open spec fn le24(b: Seq<u8>, i: int) -> u32 {
    (b[i] + 0x100 * b[i + 1] + 0x1_0000 * b[i + 2]) as u32
}

/// The operand of the ARM `bl` at `i` made relative again.
pub open spec fn arm_operand(start: u32, i: int, operand: u32) -> u32 {
    (operand << 2).wrapping_sub(position(start, i).wrapping_add(8)) >> 2
}

/// Every whole aligned word that is a `bl` converted, all else kept.
pub open spec fn arm_decoded(start: u32, buf: Seq<u8>) -> Seq<u8> {
    Seq::new(
        buf.len(),
        |k: int|
            {
                let i = k - k % 4;
                if i + 4 <= buf.len() && buf[i + 3] == 0xEB && k % 4 < 3 {
                    let t = arm_operand(start, i, le24(buf, i));
                    if k % 4 == 0 {
                        t as u8
                    } else if k % 4 == 1 {
                        (t >> 8) as u8
                    } else {
                        (t >> 16) as u8
                    }
                } else {
                    buf[k]
                }
            },
    )
}

fn arm(start: u32, buf: &mut Vec<u8>)
    ensures
        final(buf)@ == arm_decoded(start, old(buf)@),
{
    let len: usize = buf.len();
    let ghost orig = buf@;
    let mut i: usize = 0;
    while len - i >= 4
        invariant
            i % 4 == 0,
            i <= len,
            len == buf@.len(),
            orig == old(buf)@,
            len == orig.len(),
            forall|k: int| 0 <= k < i ==> buf@[k] == arm_decoded(start, orig)[k],
            forall|k: int| i <= k < len ==> buf@[k] == orig[k],
        decreases len - i,
    {
        if buf[i + 3] == 0xEB {
            let operand: u32 = buf[i] as u32 + 0x100 * (buf[i + 1] as u32) + 0x1_0000 * (buf[i
                + 2] as u32);
            let t: u32 = (operand << 2).wrapping_sub(
                position_of(start, i).wrapping_add(8),
            ) >> 2;
            buf[i] = t as u8;
            buf[i + 1] = (t >> 8) as u8;
            buf[i + 2] = (t >> 16) as u8;
        }
        i = i + 4;
    }
    assert(buf@ =~= arm_decoded(start, orig));
}

// ---- ARM Thumb: two halfwords make a branch, at any even offset ----

/// Whether a Thumb branch-and-link pair stands at `i`.
pub open spec fn armthumb_branch(buf: Seq<u8>, i: int) -> bool {
    buf[i + 1] & 0xF8 == 0xF0 && buf[i + 3] & 0xF8 == 0xF8
}

/// The target of the pair at `i`, made relative again.
pub open spec fn armthumb_target(start: u32, buf: Seq<u8>, i: int) -> u32 {
    let t = ((buf[i + 1] as u32 & 0x07) << 19) | ((buf[i] as u32) << 11) | ((buf[i + 3] as u32
        & 0x07) << 8) | (buf[i + 2] as u32);
    (t << 1).wrapping_sub(position(start, i).wrapping_add(4)) >> 1
}

/// `buf` with the pair at `i` holding target `t`.
pub open spec fn armthumb_put(buf: Seq<u8>, i: int, t: u32) -> Seq<u8> {
    buf.update(i + 1, 0xF0 | ((t >> 19) & 0x07) as u8).update(i, (t >> 11) as u8).update(
        i + 3,
        0xF8 | ((t >> 8) & 0x07) as u8,
    ).update(i + 2, t as u8)
}

/// `buf` decoded from `i` on. A converted pair is skipped whole; otherwise
/// the scan moves on by one halfword.
pub open spec fn armthumb_from(start: u32, buf: Seq<u8>, i: int) -> Seq<u8>
    decreases buf.len() - i,
{
    if i < 0 || i + 4 > buf.len() {
        buf
    } else if armthumb_branch(buf, i) {
        armthumb_from(start, armthumb_put(buf, i, armthumb_target(start, buf, i)), i + 4)
    } else {
        armthumb_from(start, buf, i + 2)
    }
}

fn armthumb(start: u32, buf: &mut Vec<u8>)
    ensures
        final(buf)@ == armthumb_from(start, old(buf)@, 0),
        final(buf)@.len() == old(buf)@.len(),
{
    let len: usize = buf.len();
    let mut i: usize = 0;
    while len - i >= 4
        invariant
            i <= len,
            len == buf@.len(),
            len == old(buf)@.len(),
            armthumb_from(start, buf@, i as int) == armthumb_from(start, old(buf)@, 0),
        decreases len - i,
    {
        if buf[i + 1] & 0xF8 == 0xF0 && buf[i + 3] & 0xF8 == 0xF8 {
            let operand: u32 = ((buf[i + 1] as u32 & 0x07) << 19) | ((buf[i] as u32) << 11) | ((
            buf[i + 3] as u32 & 0x07) << 8) | (buf[i + 2] as u32);
            let t: u32 = (operand << 1).wrapping_sub(
                position_of(start, i).wrapping_add(4),
            ) >> 1;
            buf[i + 1] = 0xF0 | ((t >> 19) & 0x07) as u8;
            buf[i] = (t >> 11) as u8;
            buf[i + 3] = 0xF8 | ((t >> 8) & 0x07) as u8;
            buf[i + 2] = t as u8;
            i = i + 4;
        } else {
            i = i + 2;
        }
    }
}

// ---- IA-64: three 41-bit slots in a 16-byte bundle ----

/// Which of a bundle's three slots hold a branch, by its template.
pub open spec fn ia64_branch_slots(template: u8) -> u32 {
    let t = template & 0x1F;
    if t == 16 || t == 17 || t == 24 || t == 25 || t == 28 || t == 29 {
        4
    } else if t == 18 || t == 19 {
        6
    } else if t == 22 || t == 23 {
        7
    } else {
        0
    }
}

/// The 48-bit little-endian integer at `i`.
pub open spec fn le48(b: Seq<u8>, i: int) -> u64 {
    (b[i] + 0x100 * b[i + 1] + 0x1_0000 * b[i + 2] + 0x100_0000 * b[i + 3] + 0x1_0000_0000 * b[i
        + 4] + 0x100_0000_0000 * b[i + 5]) as u64
}

/// `b` with the low 48 bits of `v` stored little-endian at `i`.
pub open spec fn put48(b: Seq<u8>, i: int, v: u64) -> Seq<u8> {
    b.update(i, v as u8).update(i + 1, (v >> 8) as u8).update(i + 2, (v >> 16) as u8).update(
        i + 3,
        (v >> 24) as u8,
    ).update(i + 4, (v >> 32) as u8).update(i + 5, (v >> 40) as u8)
}

/// Whether the slot value `norm` is an IP-relative call.
pub open spec fn ia64_is_call(norm: u64) -> bool {
    (norm >> 37) & 0x0F == 0x05 && (norm >> 9) & 0x07 == 0
}

/// The slot value `norm` of the bundle at `i`, its target made relative again.
pub open spec fn ia64_relative(start: u32, i: int, norm: u64) -> u64 {
    let addr = (((norm >> 13) & 0x0F_FFFF) as u32) | ((((norm >> 36) & 1) as u32) << 20);
    let rel = (addr << 4).wrapping_sub(position(start, i)) >> 4;
    (norm & !(0x8F_FFFFu64 << 13)) | (((rel & 0x0F_FFFF) as u64) << 13) | (((rel & 0x10_0000) as u64)
        << 16)
}

/// The bundle at `i` with slot `slot` decoded. Slot `slot` starts at bit
/// `5 + 41 * slot` of the bundle.
pub open spec fn ia64_slot(start: u32, buf: Seq<u8>, i: int, slot: int, mask: u32) -> Seq<u8> {
    let at = i + (5 + 41 * slot) / 8;
    let shift = ((5 + 41 * slot) % 8) as u32;
    let low = if slot == 0 {
        0x1Fu64
    } else if slot == 1 {
        0x3Fu64
    } else {
        0x7Fu64
    };
    let instr = le48(buf, at);
    let norm = instr >> shift;
    if (mask >> slot as u32) & 1 != 0 && ia64_is_call(norm) {
        put48(buf, at, (instr & low) | (ia64_relative(start, i, norm) << shift))
    } else {
        buf
    }
}

/// The bundle at `i` with all three slots decoded.
#[verifier::opaque]
pub open spec fn ia64_bundle(start: u32, buf: Seq<u8>, i: int) -> Seq<u8> {
    let mask = ia64_branch_slots(buf[i]);
    let b0 = ia64_slot(start, buf, i, 0, mask);
    let b1 = ia64_slot(start, b0, i, 1, mask);
    ia64_slot(start, b1, i, 2, mask)
}

/// `buf` with every whole bundle from `i` on decoded.
pub open spec fn ia64_from(start: u32, buf: Seq<u8>, i: int) -> Seq<u8>
    decreases buf.len() - i,
    via ia64_from_decreases
{
    if i < 0 || i + 16 > buf.len() {
        buf
    } else {
        ia64_from(start, ia64_bundle(start, buf, i), i + 16)
    }
}

#[via_fn]
proof fn ia64_from_decreases(start: u32, buf: Seq<u8>, i: int) {
    reveal(ia64_bundle);
}

fn ia64_one_slot(start: u32, buf: &mut Vec<u8>, i: usize, slot: u32, mask: u32)
    requires
        slot < 3,
        i + 16 <= old(buf).len(),
    ensures
        final(buf)@ == ia64_slot(start, old(buf)@, i as int, slot as int, mask),
        final(buf)@.len() == old(buf)@.len(),
{
    if (mask >> slot) & 1 != 0 {
        let bit_pos: u32 = 5 + 41 * slot;
        let at: usize = i + (bit_pos / 8) as usize;
        let shift: u32 = bit_pos % 8;
        let low: u64 = match slot {
            0 => 0x1F,
            1 => 0x3F,
            _ => 0x7F,
        };
        let instr: u64 = buf[at] as u64 + 0x100 * (buf[at + 1] as u64) + 0x1_0000 * (buf[at
            + 2] as u64) + 0x100_0000 * (buf[at + 3] as u64) + 0x1_0000_0000 * (buf[at
            + 4] as u64) + 0x100_0000_0000 * (buf[at + 5] as u64);
        let norm: u64 = instr >> shift;
        if (norm >> 37) & 0x0F == 0x05 && (norm >> 9) & 0x07 == 0 {
            let addr: u32 = (((norm >> 13) & 0x0F_FFFF) as u32) | ((((norm >> 36) & 1) as u32)
                << 20);
            let rel: u32 = (addr << 4).wrapping_sub(position_of(start, i)) >> 4;
            let back: u64 = (norm & !(0x8F_FFFFu64 << 13)) | (((rel & 0x0F_FFFF) as u64) << 13) | (((
            rel & 0x10_0000) as u64) << 16);
            let value: u64 = (instr & low) | (back << shift);
            buf[at] = value as u8;
            buf[at + 1] = (value >> 8) as u8;
            buf[at + 2] = (value >> 16) as u8;
            buf[at + 3] = (value >> 24) as u8;
            buf[at + 4] = (value >> 32) as u8;
            buf[at + 5] = (value >> 40) as u8;
        }
    }
}

fn ia64(start: u32, buf: &mut Vec<u8>)
    ensures
        final(buf)@ == ia64_from(start, old(buf)@, 0),
        final(buf)@.len() == old(buf)@.len(),
{
    let len: usize = buf.len();
    let mut i: usize = 0;
    while len - i >= 16
        invariant
            i <= len,
            len == buf@.len(),
            len == old(buf)@.len(),
            ia64_from(start, buf@, i as int) == ia64_from(start, old(buf)@, 0),
        decreases len - i,
    {
        let mask: u32 = match buf[i] & 0x1F {
            16 | 17 | 24 | 25 | 28 | 29 => 4,
            18 | 19 => 6,
            22 | 23 => 7,
            _ => 0,
        };
        reveal(ia64_bundle);
        ia64_one_slot(start, buf, i, 0, mask);
        ia64_one_slot(start, buf, i, 1, mask);
        ia64_one_slot(start, buf, i, 2, mask);
        i = i + 16;
    }
}

// ---- x86: a call or jump opcode at any offset ----

/// Whether `b` looks like the top byte of a converted 32-bit target.
pub open spec fn top_byte(b: u8) -> bool {
    b == 0x00 || b == 0xFF
}

/// Whether a byte pattern of recent opcodes allows the one at hand to be a
/// real branch.
pub open spec fn x86_allowed(mask: u32) -> bool {
    mask == 0 || mask == 1 || mask == 2 || mask == 4
}

/// How many bytes of the operand a pattern of recent opcodes reaches into.
pub open spec fn x86_reach(mask: u32) -> int {
    if mask == 0 {
        0
    } else if mask == 1 {
        1
    } else if mask == 2 || mask == 3 {
        2
    } else {
        3
    }
}

/// The pattern after an opcode that was `gap` bytes ago.
pub open spec fn x86_shifted(mask: u32, gap: int) -> u32 {
    if gap > 3 {
        0
    } else if gap == 3 {
        (mask << 2) & 7
    } else if gap == 2 {
        (mask << 1) & 7
    } else {
        mask & 7
    }
}

/// The operand bits that the pattern `mask` leaves to be flipped.
pub open spec fn x86_low_bits(mask: u32) -> u32 {
    if mask == 1 {
        0xFF_FFFF
    } else if mask == 2 {
        0xFFFF
    } else {
        0xFF
    }
}

/// The highest byte among those bits.
pub open spec fn x86_high_byte(mask: u32, v: u32) -> u8 {
    if mask == 1 {
        (v >> 16) as u8
    } else if mask == 2 {
        (v >> 8) as u8
    } else {
        v as u8
    }
}

/// The operand `src` with the position `at` taken off, once more with the
/// low bits flipped where the first result still looks converted.
pub open spec fn x86_unshifted(mask: u32, src: u32, at: u32) -> u32 {
    let once = src.wrapping_sub(at);
    if mask != 0 && top_byte(x86_high_byte(mask, once)) {
        (once ^ x86_low_bits(mask)).wrapping_sub(at)
    } else {
        once
    }
}

/// The low 25 bits of `v`, sign-extended.
pub open spec fn x86_sign_extended(v: u32) -> u32 {
    let low = v & 0x01FF_FFFF;
    low | 0u32.wrapping_sub(low & 0x0100_0000)
}

/// The relative operand of the branch at `i`.
pub open spec fn x86_operand(start: u32, i: int, mask: u32, src: u32) -> u32 {
    x86_sign_extended(x86_unshifted(mask, src, position(start, i).wrapping_add(5)))
}

/// `b` with `v` stored little-endian at `i`.
pub open spec fn put32(b: Seq<u8>, i: int, v: u32) -> Seq<u8> {
    b.update(i, v as u8).update(i + 1, (v >> 8) as u8).update(i + 2, (v >> 16) as u8).update(
        i + 3,
        (v >> 24) as u8,
    )
}

/// `buf` decoded from `i` on, where `prev` is the position of the last
/// opcode seen and `mask` the pattern of those just before it.
pub open spec fn x86_from(start: u32, buf: Seq<u8>, i: int, prev: int, mask: u32) -> Seq<u8>
    decreases buf.len() - i,
{
    if i < 0 || i + 4 >= buf.len() {
        buf
    } else if buf[i] & 0xFE != 0xE8 {
        x86_from(start, buf, i + 1, prev, mask)
    } else {
        let m = x86_shifted(mask, i - prev);
        if m != 0 && (!x86_allowed(m) || top_byte(buf[i + 4 - x86_reach(m)])) {
            x86_from(start, buf, i + 1, i, (m << 1) | 1)
        } else if top_byte(buf[i + 4]) {
            let src = crate::bytes::le32(buf, i + 1);
            x86_from(start, put32(buf, i + 1, x86_operand(start, i, m, src)), i + 5, i, m)
        } else {
            x86_from(start, buf, i + 1, i, (m << 1) | 1)
        }
    }
}

/// Flipping is never needed twice: what a second pass would look at is the
/// complement of a byte of the operand already found not to be a top byte.
proof fn lemma_x86_second_pass_settles(mask: u32, src: u32, at: u32)
    requires
        mask == 1 || mask == 2 || mask == 4,
        !top_byte(x86_high_byte(mask, src)),
    ensures
        !top_byte(
            x86_high_byte(
                mask,
                (src.wrapping_sub(at) ^ x86_low_bits(mask)).wrapping_sub(at),
            ),
        ),
{
    let once = src.wrapping_sub(at);
    assert(once == (src - at) as u32) by {
        assert((src - at) as u32 == if src >= at {
            src - at
        } else {
            src - at + 0x1_0000_0000
        }) by (bit_vector);
    }
    let flipped = once ^ x86_low_bits(mask);
    let twice = flipped.wrapping_sub(at);
    assert(twice == (flipped - at) as u32) by {
        assert((flipped - at) as u32 == if flipped >= at {
            flipped - at
        } else {
            flipped - at + 0x1_0000_0000
        }) by (bit_vector);
    }
    if mask == 1 {
        assert((twice >> 16) as u8 == !((src >> 16) as u8)) by (bit_vector)
            requires
                once == (src - at) as u32,
                flipped == once ^ 0xFF_FFFF,
                twice == (flipped - at) as u32,
        ;
        let b = (src >> 16) as u8;
        assert(b != 0 && b != 0xFF ==> !b != 0 && !b != 0xFF) by (bit_vector);
    } else if mask == 2 {
        assert((twice >> 8) as u8 == !((src >> 8) as u8)) by (bit_vector)
            requires
                once == (src - at) as u32,
                flipped == once ^ 0xFFFF,
                twice == (flipped - at) as u32,
        ;
        let b = (src >> 8) as u8;
        assert(b != 0 && b != 0xFF ==> !b != 0 && !b != 0xFF) by (bit_vector);
    } else {
        assert(twice as u8 == !(src as u8)) by (bit_vector)
            requires
                once == (src - at) as u32,
                flipped == once ^ 0xFF,
                twice == (flipped - at) as u32,
        ;
        let b = src as u8;
        assert(b != 0 && b != 0xFF ==> !b != 0 && !b != 0xFF) by (bit_vector);
    }
}

fn is_top_byte(b: u8) -> (r: bool)
    ensures
        r == top_byte(b),
{
    b == 0x00 || b == 0xFF
}

/// Takes the position `at` off the operand `src`.
fn x86_target(mask: u32, src: u32, at: u32) -> (r: u32)
    requires
        mask == 0 || mask == 1 || mask == 2 || mask == 4,
        mask != 0 ==> !top_byte(x86_high_byte(mask, src)),
    ensures
        r == x86_unshifted(mask, src, at),
{
    let mut dest: u32 = src.wrapping_sub(at);
    if mask == 0 {
        return dest;
    }
    let (shift, low): (u32, u32) = match mask {
        1 => (16, 0xFF_FFFF),
        2 => (8, 0xFFFF),
        _ => (0, 0xFF),
    };
    let ghost once = dest;
    let ghost mut flips: nat = 0;
    assert(dest >> 0u32 == dest) by (bit_vector);
    while is_top_byte((dest >> shift) as u8)
        invariant
            mask == 1 || mask == 2 || mask == 4,
            mask == 1 ==> shift == 16,
            mask == 2 ==> shift == 8,
            mask == 4 ==> shift == 0,
            low == x86_low_bits(mask),
            once == src.wrapping_sub(at),
            !top_byte(x86_high_byte(mask, src)),
            (dest >> shift) as u8 == x86_high_byte(mask, dest),
            flips == 0 ==> dest == once,
            flips <= 1,
            flips == 1 ==> top_byte(x86_high_byte(mask, once)) && dest == (once ^ low).wrapping_sub(
                at,
            ),
        decreases 1 - flips,
    {
        proof {
            lemma_x86_second_pass_settles(mask, src, at);
            flips = flips + 1;
        }
        dest = (dest ^ low).wrapping_sub(at);
        assert(dest >> 0u32 == dest) by (bit_vector);
    }
    dest
}

fn x86(start: u32, buf: &mut Vec<u8>)
    ensures
        final(buf)@ == x86_from(start, old(buf)@, 0, -1, 0),
        final(buf)@.len() == old(buf)@.len(),
{
    let len: usize = buf.len();
    // One past the position of the last opcode seen.
    let mut seen: usize = 0;
    let mut mask: u32 = 0;
    let mut i: usize = 0;
    while len - i > 4
        invariant
            seen <= i <= len,
            len == buf@.len(),
            len == old(buf)@.len(),
            x86_from(start, buf@, i as int, seen - 1, mask) == x86_from(
                start,
                old(buf)@,
                0,
                -1,
                0,
            ),
        decreases len - i,
    {
        if buf[i] & 0xFE != 0xE8 {
            i = i + 1;
            continue;
        }
        let gap: usize = i - seen + 1;
        mask = if gap > 3 {
            0
        } else if gap == 3 {
            (mask << 2) & 7
        } else if gap == 2 {
            (mask << 1) & 7
        } else {
            mask & 7
        };
        seen = i + 1;
        if mask != 0 {
            let reach: usize = match mask {
                1 => 1,
                2 | 3 => 2,
                _ => 3,
            };
            let allowed: bool = mask == 1 || mask == 2 || mask == 4;
            if !allowed || is_top_byte(buf[i + 4 - reach]) {
                mask = (mask << 1) | 1;
                i = i + 1;
                continue;
            }
        }
        if is_top_byte(buf[i + 4]) {
            let src: u32 = get_le32(buf.as_slice(), i + 1);
            proof {
                lemma_le32_bytes(buf@, i + 1);
            }
            let at: u32 = position_of(start, i).wrapping_add(5);
            let low: u32 = x86_target(mask, src, at) & 0x01FF_FFFF;
            let dest: u32 = low | 0u32.wrapping_sub(low & 0x0100_0000);
            buf[i + 1] = dest as u8;
            buf[i + 2] = (dest >> 8) as u8;
            buf[i + 3] = (dest >> 16) as u8;
            buf[i + 4] = (dest >> 24) as u8;
            i = i + 5;
        } else {
            mask = (mask << 1) | 1;
            i = i + 1;
        }
    }
}

/// The bytes of a little-endian word are the bytes it was read from.
proof fn lemma_le32_bytes(b: Seq<u8>, i: int)
    requires
        0 <= i,
        i + 4 <= b.len(),
    ensures
        crate::bytes::le32(b, i) as u8 == b[i],
        (crate::bytes::le32(b, i) >> 8) as u8 == b[i + 1],
        (crate::bytes::le32(b, i) >> 16) as u8 == b[i + 2],
        (crate::bytes::le32(b, i) >> 24) as u8 == b[i + 3],
{
    let (b0, b1, b2, b3) = (b[i], b[i + 1], b[i + 2], b[i + 3]);
    let w = crate::bytes::le32(b, i);
    assert(w as u8 == b0 && (w >> 8) as u8 == b1 && (w >> 16) as u8 == b2 && (w >> 24) as u8 == b3)
        by (bit_vector)
        requires
            w == b0 + 0x100 * b1 + 0x1_0000 * b2 + 0x100_0000 * b3,
    ;
}

// ---- laws ----

/// A converter changes bytes, never their number.
pub proof fn decoded_keeps_the_length(kind: Bcj, start: u32, buf: Seq<u8>)
    ensures
        decoded(kind, start, buf).len() == buf.len(),
{
    lemma_x86_length(start, buf, 0, -1, 0);
    lemma_ia64_length(start, buf, 0);
    lemma_armthumb_length(start, buf, 0);
}

proof fn lemma_x86_length(start: u32, buf: Seq<u8>, i: int, prev: int, mask: u32)
    ensures
        x86_from(start, buf, i, prev, mask).len() == buf.len(),
    decreases buf.len() - i,
{
    if 0 <= i && i + 4 < buf.len() {
        let m = x86_shifted(mask, i - prev);
        let src = crate::bytes::le32(buf, i + 1);
        lemma_x86_length(start, buf, i + 1, prev, mask);
        lemma_x86_length(start, buf, i + 1, i, (m << 1) | 1);
        lemma_x86_length(start, put32(buf, i + 1, x86_operand(start, i, m, src)), i + 5, i, m);
    }
}

proof fn lemma_ia64_length(start: u32, buf: Seq<u8>, i: int)
    ensures
        ia64_from(start, buf, i).len() == buf.len(),
    decreases buf.len() - i,
{
    reveal(ia64_bundle);
    if 0 <= i && i + 16 <= buf.len() {
        lemma_ia64_length(start, ia64_bundle(start, buf, i), i + 16);
    }
}

proof fn lemma_armthumb_length(start: u32, buf: Seq<u8>, i: int)
    ensures
        armthumb_from(start, buf, i).len() == buf.len(),
    decreases buf.len() - i,
{
    if 0 <= i && i + 4 <= buf.len() {
        lemma_armthumb_length(
            start,
            armthumb_put(buf, i, armthumb_target(start, buf, i)),
            i + 4,
        );
        lemma_armthumb_length(start, buf, i + 2);
    }
}

} // verus!
