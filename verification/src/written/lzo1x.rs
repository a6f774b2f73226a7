//! LZO1X streams, as they are written.

use vstd::prelude::*;

use crate::lzo1x::Step;
use super::numbers::{lemma_stands, lemma_stands_apart};

verus! {

broadcast use {super::numbers::lemma_len16, super::numbers::lemma_len32};

/// `n` zero bytes.
pub open spec fn zeros(n: nat) -> Seq<u8> {
    Seq::new(n, |i: int| 0u8)
}

/// What a length that does not fit its command byte has left over, written
/// behind it: a zero byte for each 255, and the rest, of 1 to 255.
pub open spec fn run_bytes(left: nat) -> Seq<u8> {
    zeros(((left - 1) / 255) as nat) + seq![((left - 1) % 255 + 1) as u8]
}

proof fn lemma_run(input: Seq<u8>, ip: int, base: int, k: nat, last: u8)
    requires
        0 <= ip,
        0 <= base,
        1 <= last,
        base + 255 * k <= 0x100_0000,
        super::numbers::stands(input, ip, zeros(k) + seq![last]),
    ensures
        crate::lzo1x::zero_run(input, ip, base) == Some((base + 255 * k + last, ip + k + 1)),
    decreases k,
{
    let whole = zeros(k) + seq![last];
    lemma_stands(input, ip, whole);
    assert(input[ip + 0] == whole[0]);
    if k > 0 {
        assert(zeros(k) =~= seq![0u8] + zeros((k - 1) as nat));
        assert(whole =~= seq![0u8] + (zeros((k - 1) as nat) + seq![last]));
        lemma_stands_apart(input, ip, seq![0u8], zeros((k - 1) as nat) + seq![last]);
        lemma_run(input, ip + 1, base + 255, (k - 1) as nat, last);
    }
}

/// A length that was written behind its command byte is read back.
pub proof fn long_lengths_are_read_back(input: Seq<u8>, ip: int, base: int, left: nat)
    requires
        0 <= ip,
        0 <= base,
        left >= 1,
        base + left <= 0x100_0000,
        super::numbers::stands(input, ip, run_bytes(left)),
    ensures
        crate::lzo1x::zero_run(input, ip, base) == Some(
            (base + left, ip + run_bytes(left).len()),
        ),
{
    let k = ((left - 1) / 255) as nat;
    let last = ((left - 1) % 255 + 1) as u8;
    lemma_run(input, ip, base, k, last);
}

/// A length of a command: `field` in its byte where that is not zero and at
/// most `most`, else what is over `most` behind it.
pub open spec fn length_field(len: int, most: int) -> int {
    if len <= most {
        len
    } else {
        0
    }
}

/// What follows the command byte of a length.
pub open spec fn length_bytes(len: int, most: int) -> Seq<u8> {
    if len <= most {
        Seq::empty()
    } else {
        run_bytes((len - most) as nat)
    }
}

proof fn lemma_length(input: Seq<u8>, ip: int, len: int, most: int)
    requires
        0 <= ip <= input.len(),
        1 <= len <= 0x100_0000,
        0 <= most,
        super::numbers::stands(input, ip, length_bytes(len, most)),
    ensures
        crate::lzo1x::length(input, ip, length_field(len, most), most) == Some(
            (len, ip + length_bytes(len, most).len()),
        ),
{
    if len > most {
        long_lengths_are_read_back(input, ip, most, (len - most) as nat);
    }
}

/// A run of literals, where no literals came just before: at least four.
pub open spec fn literal_command(n: int) -> Seq<u8> {
    seq![length_field(n - 3, 15) as u8] + length_bytes(n - 3, 15)
}

/// A run of literals that was written is read back.
pub proof fn literal_commands_are_read_back(input: Seq<u8>, ip: int, n: int)
    requires
        0 <= ip,
        4 <= n <= 0x100_0000,
        super::numbers::stands(input, ip, literal_command(n)),
    ensures
        crate::lzo1x::instruction(input, ip, 0) == Some(
            (Step::Literals(n), ip + literal_command(n).len()),
        ),
{
    let first = seq![length_field(n - 3, 15) as u8];
    lemma_stands_apart(input, ip, first, length_bytes(n - 3, 15));
    lemma_stands(input, ip, first);
    assert(input[ip + 0] == first[0]);
    lemma_length(input, ip + 1, n - 3, 15);
}

/// A match of 3 to 8 bytes from at most 2048 back, `state` literals behind it.
pub open spec fn near_match(len: int, dist: int, state: int) -> Seq<u8> {
    seq![
        ((if len <= 4 {
            64 + 32 * (len - 3)
        } else {
            128 + 32 * (len - 5)
        }) + 4 * ((dist - 1) % 8) + state) as u8,
        ((dist - 1) / 8) as u8,
    ]
}

/// A near match that was written is read back, in any state.
pub proof fn near_matches_are_read_back(
    input: Seq<u8>,
    ip: int,
    before: int,
    len: int,
    dist: int,
    state: int,
)
    requires
        0 <= ip,
        3 <= len <= 8,
        1 <= dist <= 2048,
        0 <= state <= 3,
        super::numbers::stands(input, ip, near_match(len, dist, state)),
    ensures
        crate::lzo1x::instruction(input, ip, before) == Some(
            (Step::Match { len, dist, state }, ip + 2),
        ),
{
    let b = near_match(len, dist, state);
    lemma_stands(input, ip, b);
    assert(input[ip + 0] == b[0] && input[ip + 1] == b[1]);
}

/// A match of any length from at most 16384 back.
pub open spec fn middle_match(len: int, dist: int, state: int) -> Seq<u8> {
    seq![(32 + length_field(len - 2, 31)) as u8] + (length_bytes(len - 2, 31)
        + super::numbers::bytes16((4 * (dist - 1) + state) as u16))
}

/// A middle match that was written is read back, in any state.
pub proof fn middle_matches_are_read_back(
    input: Seq<u8>,
    ip: int,
    before: int,
    len: int,
    dist: int,
    state: int,
)
    requires
        0 <= ip,
        3 <= len <= 0x100_0000,
        1 <= dist <= 16384,
        0 <= state <= 3,
        super::numbers::stands(input, ip, middle_match(len, dist, state)),
    ensures
        crate::lzo1x::instruction(input, ip, before) == Some(
            (Step::Match { len, dist, state }, ip + middle_match(len, dist, state).len()),
        ),
{
    let op = (4 * (dist - 1) + state) as u16;
    let first = seq![(32 + length_field(len - 2, 31)) as u8];
    let run = length_bytes(len - 2, 31);
    let rest = run + super::numbers::bytes16(op);
    lemma_stands_apart(input, ip, first, rest);
    lemma_stands(input, ip, first);
    assert(input[ip + 0] == first[0]);
    lemma_stands_apart(input, ip + 1, run, super::numbers::bytes16(op));
    lemma_length(input, ip + 1, len - 2, 31);
    super::numbers::lemma_last16(input, ip + 1 + run.len(), op);
}

/// A match of any length from 16385 to 49151 back.
pub open spec fn far_match(len: int, dist: int, state: int) -> Seq<u8> {
    seq![(16 + 8 * ((dist - 16384) / 16384) + length_field(len - 2, 7)) as u8] + (length_bytes(
        len - 2,
        7,
    ) + super::numbers::bytes16((4 * ((dist - 16384) % 16384) + state) as u16))
}

/// A far match that was written is read back, in any state.
pub proof fn far_matches_are_read_back(
    input: Seq<u8>,
    ip: int,
    before: int,
    len: int,
    dist: int,
    state: int,
)
    requires
        0 <= ip,
        3 <= len <= 0x100_0000,
        16385 <= dist <= 49151,
        0 <= state <= 3,
        super::numbers::stands(input, ip, far_match(len, dist, state)),
    ensures
        crate::lzo1x::instruction(input, ip, before) == Some(
            (Step::Match { len, dist, state }, ip + far_match(len, dist, state).len()),
        ),
{
    let h = (dist - 16384) / 16384;
    let d = (dist - 16384) % 16384;
    let op = (4 * d + state) as u16;
    let first = seq![(16 + 8 * h + length_field(len - 2, 7)) as u8];
    let run = length_bytes(len - 2, 7);
    let rest = run + super::numbers::bytes16(op);
    lemma_stands_apart(input, ip, first, rest);
    lemma_stands(input, ip, first);
    assert(input[ip + 0] == first[0]);
    lemma_stands_apart(input, ip + 1, run, super::numbers::bytes16(op));
    lemma_length(input, ip + 1, len - 2, 7);
    super::numbers::lemma_last16(input, ip + 1 + run.len(), op);
    assert(dist == 16384 + 16384 * h + d);
}

/// A match of two bytes, from at most 1024 back, just behind one to three
/// literals.
pub open spec fn short_match(dist: int, state: int) -> Seq<u8> {
    seq![(4 * ((dist - 1) % 4) + state) as u8, ((dist - 1) / 4) as u8]
}

/// A match of three bytes, from 2049 to 3072 back, just behind a run of
/// literals.
pub open spec fn behind_run_match(dist: int, state: int) -> Seq<u8> {
    seq![(4 * ((dist - 2049) % 4) + state) as u8, ((dist - 2049) / 4) as u8]
}

/// The two matches that only stand behind literals are read back there.
pub proof fn matches_behind_literals_are_read_back(
    input: Seq<u8>,
    ip: int,
    before: int,
    dist: int,
    state: int,
)
    requires
        0 <= ip,
        1 <= before <= 4,
        0 <= state <= 3,
        before <= 3 ==> 1 <= dist <= 1024 && super::numbers::stands(
            input,
            ip,
            short_match(dist, state),
        ),
        before == 4 ==> 2049 <= dist <= 3072 && super::numbers::stands(
            input,
            ip,
            behind_run_match(dist, state),
        ),
    ensures
        before <= 3 ==> crate::lzo1x::instruction(input, ip, before) == Some(
            (Step::Match { len: 2, dist, state }, ip + 2),
        ),
        before == 4 ==> crate::lzo1x::instruction(input, ip, before) == Some(
            (Step::Match { len: 3, dist, state }, ip + 2),
        ),
{
    let b = if before <= 3 {
        short_match(dist, state)
    } else {
        behind_run_match(dist, state)
    };
    lemma_stands(input, ip, b);
    assert(input[ip + 0] == b[0] && input[ip + 1] == b[1]);
}

/// The three bytes that end a stream end it, in any state.
pub proof fn the_end_is_read_back(input: Seq<u8>, ip: int, before: int)
    requires
        0 <= ip,
        super::numbers::stands(input, ip, seq![17u8, 0, 0]),
    ensures
        crate::lzo1x::instruction(input, ip, before) == Some((Step::End, ip + 3)),
{
    let b = seq![17u8, 0, 0];
    lemma_stands(input, ip, b);
    assert(input[ip + 0] == b[0] && input[ip + 1] == b[1] && input[ip + 2] == b[2]);
}

/// Whether `grown` is `out` and `len` more bytes, each the one `dist` before
/// it.
pub open spec fn repeats(out: Seq<u8>, grown: Seq<u8>, dist: int, len: int) -> bool {
    &&& grown.len() == out.len() + len
    &&& forall|k: int| 0 <= k < out.len() ==> #[trigger] grown[k] == out[k]
    &&& forall|k: int| out.len() <= k < grown.len() ==> #[trigger] grown[k] == grown[k - dist]
}

/// A match gives the bytes that repeat those before them, and no others.
pub proof fn matches_repeat_what_came_before(
    out: Seq<u8>,
    grown: Seq<u8>,
    dist: int,
    len: int,
    max_out: nat,
)
    requires
        0 < dist <= out.len(),
        0 <= len,
        repeats(out, grown, dist, len),
    ensures
        grown.len() <= max_out ==> crate::lzo1x::matched(out, dist, len, max_out) == Some(grown),
        grown.len() > max_out ==> crate::lzo1x::matched(out, dist, len, max_out) is None,
{
    if grown.len() <= max_out {
        let made = crate::lzo1x::with_match(out, dist, len);
        assert forall|k: int| 0 <= k < grown.len() implies grown[k] == made[k] by {
            lemma_repeated(out, grown, dist, len, k);
        }
        assert(grown =~= made);
    }
}

proof fn lemma_repeated(out: Seq<u8>, grown: Seq<u8>, dist: int, len: int, k: int)
    requires
        0 < dist <= out.len(),
        0 <= len,
        repeats(out, grown, dist, len),
        0 <= k < grown.len(),
    ensures
        grown[k] == crate::lzo1x::with_match(out, dist, len)[k],
    decreases k,
{
    if k >= out.len() {
        let j = k - out.len();
        lemma_repeated(out, grown, dist, len, k - dist);
        if j < dist {
            vstd::arithmetic::div_mod::lemma_small_mod(j as nat, dist as nat);
        } else {
            vstd::arithmetic::div_mod::lemma_mod_sub_multiples_vanish(j, dist);
        }
    }
}

/// A match reaches no further back than there is output.
pub proof fn matches_stay_within_the_output(out: Seq<u8>, dist: int, len: int, max_out: nat)
    requires
        dist <= 0 || dist > out.len(),
    ensures
        crate::lzo1x::matched(out, dist, len, max_out) is None,
{
}

/// A run of literals adds the bytes that stand behind its command, and is
/// followed by what is read as such.
pub proof fn literals_are_copied(
    input: Seq<u8>,
    ip: int,
    at: int,
    out: Seq<u8>,
    bytes: Seq<u8>,
    max_out: nat,
)
    requires
        0 <= ip < at,
        crate::lzo1x::instruction(input, ip, 0) == Some((Step::Literals(bytes.len() as int), at)),
        super::numbers::stands(input, at, bytes),
        out.len() + bytes.len() <= max_out,
    ensures
        crate::lzo1x::decoded_from(input, ip, out, 0, max_out) == crate::lzo1x::decoded_from(
            input,
            at + bytes.len(),
            out + bytes,
            4,
            max_out,
        ),
{
}

/// A match adds what it repeats and then the literals behind it, whose number
/// is the state of what follows.
pub proof fn matches_are_carried_out(
    input: Seq<u8>,
    ip: int,
    before: int,
    at: int,
    out: Seq<u8>,
    grown: Seq<u8>,
    dist: int,
    len: int,
    bytes: Seq<u8>,
    max_out: nat,
)
    requires
        0 <= ip < at,
        0 <= len,
        0 < dist <= out.len(),
        crate::lzo1x::instruction(input, ip, before) == Some(
            (Step::Match { len, dist, state: bytes.len() as int }, at),
        ),
        repeats(out, grown, dist, len),
        super::numbers::stands(input, at, bytes),
        grown.len() + bytes.len() <= max_out,
    ensures
        crate::lzo1x::decoded_from(input, ip, out, before, max_out) == crate::lzo1x::decoded_from(
            input,
            at + bytes.len(),
            grown + bytes,
            bytes.len() as int,
            max_out,
        ),
{
    matches_repeat_what_came_before(out, grown, dist, len, max_out);
}

/// The end of a stream gives what was decoded up to it.
pub proof fn the_end_gives_what_was_decoded(
    input: Seq<u8>,
    ip: int,
    before: int,
    out: Seq<u8>,
    max_out: nat,
)
    requires
        0 <= ip,
        super::numbers::stands(input, ip, seq![17u8, 0, 0]),
    ensures
        crate::lzo1x::decoded_from(input, ip, out, before, max_out) == Some(out),
{
    the_end_is_read_back(input, ip, before);
}

/// A stream starts with a command, or with a byte of 18 or more that stands
/// for 17 fewer literals.
pub proof fn streams_start_with_literals_or_a_command(
    input: Seq<u8>,
    bytes: Seq<u8>,
    max_out: nat,
)
    requires
        input.len() > 0,
        input[0] >= 18 ==> bytes.len() == input[0] - 17 && bytes.len() <= max_out
            && super::numbers::stands(input, 1, bytes),
    ensures
        input[0] < 18 ==> crate::lzo1x::decoded(input, max_out) == crate::lzo1x::decoded_from(
            input,
            0,
            Seq::empty(),
            0,
            max_out,
        ),
        input[0] >= 18 ==> crate::lzo1x::decoded(input, max_out) == crate::lzo1x::decoded_from(
            input,
            1 + bytes.len() as int,
            bytes,
            if bytes.len() < 4 {
                bytes.len() as int
            } else {
                4
            },
            max_out,
        ),
{
    if input[0] >= 18 {
        assert(Seq::<u8>::empty() + bytes =~= bytes);
    }
}

/// What would be a far match from exactly 16384 back ends the stream, whatever
/// its length.
pub proof fn a_match_of_no_distance_is_the_end(
    input: Seq<u8>,
    ip: int,
    before: int,
    len: int,
    state: int,
)
    requires
        0 <= ip,
        3 <= len <= 0x100_0000,
        0 <= state <= 3,
        super::numbers::stands(input, ip, far_match(len, 16384, state)),
    ensures
        crate::lzo1x::instruction(input, ip, before) == Some(
            (Step::End, ip + far_match(len, 16384, state).len()),
        ),
{
    let op = state as u16;
    let first = seq![(16 + length_field(len - 2, 7)) as u8];
    let run = length_bytes(len - 2, 7);
    lemma_stands_apart(input, ip, first, run + super::numbers::bytes16(op));
    lemma_stands(input, ip, first);
    assert(input[ip + 0] == first[0]);
    lemma_stands_apart(input, ip + 1, run, super::numbers::bytes16(op));
    lemma_length(input, ip + 1, len - 2, 7);
    super::numbers::lemma_last16(input, ip + 1 + run.len(), op);
}

/// A stream that stops before its end, in an instruction or behind one, is
/// refused, and so is one that decodes to more than the bound.
pub proof fn streams_without_an_end_are_refused(
    input: Seq<u8>,
    ip: int,
    before: int,
    out: Seq<u8>,
    max_out: nat,
)
    requires
        0 <= ip,
    ensures
        input.len() == 0 ==> crate::lzo1x::decoded(input, max_out) is None,
        ip >= input.len() ==> crate::lzo1x::decoded_from(input, ip, out, before, max_out) is None,
        crate::lzo1x::instruction(input, ip, before) matches Some((Step::Literals(n), at)) && (at
            + n > input.len() || out.len() + n > max_out) ==> crate::lzo1x::decoded_from(
            input,
            ip,
            out,
            before,
            max_out,
        ) is None,
        crate::lzo1x::instruction(input, ip, before) matches Some(
            (Step::Match { len, dist, state }, at),
        ) && (dist <= 0 || dist > out.len() || at + state > input.len() || out.len() + len + state
            > max_out) ==> crate::lzo1x::decoded_from(input, ip, out, before, max_out) is None,
{
    if let Some((Step::Match { len, dist, state }, at)) = crate::lzo1x::instruction(
        input,
        ip,
        before,
    ) {
        if let Some(grown) = crate::lzo1x::matched(out, dist, len, max_out) {
            assert(len > 0) by {
                if ip < input.len() {
                    lemma_lengths(input, ip + 1);
                }
            }
        }
    }
}

proof fn lemma_lengths(input: Seq<u8>, ip: int)
    ensures
        crate::lzo1x::zero_run(input, ip, 31) matches Some((n, _)) ==> n > 0,
        crate::lzo1x::zero_run(input, ip, 7) matches Some((n, _)) ==> n > 0,
{
    lemma_zero_run_grows(input, ip, 31);
    lemma_zero_run_grows(input, ip, 7);
}

proof fn lemma_zero_run_grows(input: Seq<u8>, ip: int, base: int)
    requires
        base >= 0,
    ensures
        crate::lzo1x::zero_run(input, ip, base) matches Some((n, _)) ==> n > base,
    decreases input.len() - ip,
{
    if ip < input.len() && input[ip] == 0 && base + 255 <= 0x100_0000 {
        lemma_zero_run_grows(input, ip + 1, base + 255);
    }
}

/// Any bytes, written as a stream of literals alone.
pub open spec fn literal_stream(bytes: Seq<u8>) -> Seq<u8> {
    if bytes.len() < 4 {
        seq![(17 + bytes.len()) as u8] + (bytes + seq![17u8, 0, 0])
    } else {
        literal_command(bytes.len() as int) + (bytes + seq![17u8, 0, 0])
    }
}

/// Any bytes that were written as literals are read back.
pub proof fn literal_streams_are_read_back(bytes: Seq<u8>, max_out: nat)
    requires
        1 <= bytes.len() <= max_out,
        bytes.len() <= 0x100_0000,
    ensures
        crate::lzo1x::decoded(literal_stream(bytes), max_out) == Some(bytes),
{
    let s = literal_stream(bytes);
    let end = seq![17u8, 0, 0];
    assert(s.subrange(0, s.len() as int) =~= s);
    let head = if bytes.len() < 4 {
        seq![(17 + bytes.len()) as u8]
    } else {
        literal_command(bytes.len() as int)
    };
    assert(super::numbers::stands(s, 0, head + (bytes + end)));
    lemma_stands_apart(s, 0, head, bytes + end);
    lemma_stands_apart(s, head.len() as int, bytes, end);
    lemma_stands(s, 0, head);
    assert(s[0int + 0] == head[0]);
    if bytes.len() >= 4 {
        literal_commands_are_read_back(s, 0, bytes.len() as int);
        literals_are_copied(s, 0, head.len() as int, Seq::empty(), bytes, max_out);
        assert(Seq::<u8>::empty() + bytes =~= bytes);
        the_end_gives_what_was_decoded(s, head.len() + bytes.len() as int, 4, bytes, max_out);
    } else {
        the_end_gives_what_was_decoded(
            s,
            1 + bytes.len() as int,
            bytes.len() as int,
            bytes,
            max_out,
        );
    }
    streams_start_with_literals_or_a_command(s, bytes, max_out);
}

} // verus!
