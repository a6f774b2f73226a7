//! LZO1X decompression.
//!
//! A stream is a sequence of instructions. Each is one command byte, often
//! followed by more, and either copies a run of literal bytes from the input
//! or repeats `len` bytes that stand `dist` bytes back in the output. A match
//! is followed at once by up to three literals; how many is the state that
//! the next instruction is read in. State 4 stands for a long literal run
//! just before.
//!
//! By its command byte `t`:
//!
//! ```text
//! 0 0 0 0 L L L L   state 0: literals, 3 + (L or zero run + 15); state 4 next
//! 0 0 0 0 D D S S   state 1..=3: match of 2, dist = 4 * H + D + 1
//!                   state 4: match of 3, dist = 4 * H + D + 2049
//! 0 0 0 1 H L L L   match, 2 + (L or zero run + 7), dist = 16384 + 16384 * H + D
//!                   with D the upper 14 bits of the operand, the lower two
//!                   being S; dist 16384 is the end of the stream
//! 0 0 1 L L L L L   match, 2 + (L or zero run + 31), dist = D + 1
//! 0 1 L D D D S S   match, 3 + L, dist = 8 * H + D + 1
//! 1 L L D D D S S   match, 5 + L, dist = 8 * H + D + 1
//! ```
//!
//! A length of zero in the command byte is extended by a zero run: each zero
//! byte adds 255 and the byte that ends the run adds itself. A first byte of
//! 18 or more is a leading run of that many literals less 17.

use vstd::prelude::*;

use crate::error::{Error, Result};

verus! {

/// No length that a zero run builds may pass this.
pub const MAX_RUN: usize = 0x100_0000;

/// What every malformed stream is reported as.
pub open spec fn malformed() -> Error {
    Error::BadMetadata("malformed LZO1X stream")
}

/// What an instruction does.
pub enum Step {
    /// Copies this many bytes from the input, which stand behind the
    /// instruction.
    Literals(int),
    /// Repeats `len` bytes from `dist` back, then copies `state` literals.
    Match { len: int, dist: int, state: int },
    /// Ends the stream.
    End,
}

/// `len` extended by the zero run at `ip`, and where the run ends.
pub open spec fn zero_run(input: Seq<u8>, ip: int, len: int) -> Option<(int, int)>
    decreases input.len() - ip,
{
    if ip >= input.len() {
        None
    } else if input[ip] != 0 {
        Some((len + input[ip], ip + 1))
    } else if len + 255 > MAX_RUN {
        None
    } else {
        zero_run(input, ip + 1, len + 255)
    }
}

/// A length whose command byte holds `field`, extended from `base` by the
/// zero run at `ip` where the field is zero; and where the operand follows.
pub open spec fn length(input: Seq<u8>, ip: int, field: int, base: int) -> Option<(int, int)> {
    if field == 0 {
        zero_run(input, ip, base)
    } else {
        Some((field, ip))
    }
}

/// The little-endian operand at `ip`, if the input has it.
pub open spec fn operand(input: Seq<u8>, ip: int) -> Option<int> {
    if ip + 2 <= input.len() {
        Some(crate::bytes::le16(input, ip) as int)
    } else {
        None
    }
}

/// The instruction at `ip` in the given state, and where it ends.
pub open spec fn instruction(input: Seq<u8>, ip: int, state: int) -> Option<(Step, int)> {
    if ip >= input.len() {
        None
    } else {
        let t = input[ip] as int;
        if t >= 64 || (t < 16 && state != 0) {
            // One more byte extends the distance.
            if ip + 1 >= input.len() {
                None
            } else {
                let h = input[ip + 1] as int;
                let (len, dist) = if t >= 128 {
                    (5 + (t / 32) % 4, 8 * h + (t / 4) % 8 + 1)
                } else if t >= 64 {
                    (3 + (t / 32) % 2, 8 * h + (t / 4) % 8 + 1)
                } else if state == 4 {
                    (3, 4 * h + (t / 4) % 4 + 2049)
                } else {
                    (2, 4 * h + (t / 4) % 4 + 1)
                };
                Some((Step::Match { len, dist, state: t % 4 }, ip + 2))
            }
        } else if t >= 32 {
            match length(input, ip + 1, t % 32, 31) {
                None => None,
                Some((len, at)) => match operand(input, at) {
                    None => None,
                    Some(op) => Some(
                        (Step::Match { len: len + 2, dist: op / 4 + 1, state: op % 4 }, at + 2),
                    ),
                },
            }
        } else if t >= 16 {
            match length(input, ip + 1, t % 8, 7) {
                None => None,
                Some((len, at)) => match operand(input, at) {
                    None => None,
                    Some(op) => {
                        let dist = 16384 + 16384 * ((t / 8) % 2) + op / 4;
                        if dist == 16384 {
                            Some((Step::End, at + 2))
                        } else {
                            Some((Step::Match { len: len + 2, dist, state: op % 4 }, at + 2))
                        }
                    },
                },
            }
        } else {
            match length(input, ip + 1, t, 15) {
                None => None,
                Some((len, at)) => Some((Step::Literals(len + 3), at)),
            }
        }
    }
}

/// `out` followed by `len` bytes repeated from `dist` back. Where `dist` is
/// less than `len` the repeated bytes repeat themselves.
pub open spec fn with_match(out: Seq<u8>, dist: int, len: int) -> Seq<u8> {
    Seq::new(
        (out.len() + len) as nat,
        |i: int|
            if i < out.len() {
                out[i]
            } else {
                out[out.len() - dist + (i - out.len()) % dist]
            },
    )
}

/// `out` after a match, if there is something to repeat and room for it.
pub open spec fn matched(out: Seq<u8>, dist: int, len: int, max_out: nat) -> Option<Seq<u8>> {
    if 0 < dist <= out.len() && out.len() + len <= max_out {
        Some(with_match(out, dist, len))
    } else {
        None
    }
}

/// `out` after `n` literals from `ip`, if the input has them and there is
/// room for them.
pub open spec fn literals(
    input: Seq<u8>,
    ip: int,
    out: Seq<u8>,
    n: int,
    max_out: nat,
) -> Option<Seq<u8>> {
    if out.len() + n <= max_out && ip + n <= input.len() {
        Some(out + input.subrange(ip, ip + n))
    } else {
        None
    }
}

/// What the stream decodes to from `ip` on, after `out`.
pub open spec fn decoded_from(
    input: Seq<u8>,
    ip: int,
    out: Seq<u8>,
    state: int,
    max_out: nat,
) -> Option<Seq<u8>>
    decreases input.len() - ip,
    when 0 <= ip
    via decoded_from_decreases
{
    match instruction(input, ip, state) {
        None => None,
        Some((Step::End, _)) => Some(out),
        Some((Step::Literals(n), at)) => match literals(input, at, out, n, max_out) {
            None => None,
            Some(grown) => decoded_from(input, at + n, grown, 4, max_out),
        },
        Some((Step::Match { len, dist, state: s }, at)) => match matched(out, dist, len, max_out) {
            None => None,
            Some(repeated) => match literals(input, at, repeated, s, max_out) {
                None => None,
                Some(grown) => decoded_from(input, at + s, grown, s, max_out),
            },
        },
    }
}

proof fn lemma_zero_run_moves_on(input: Seq<u8>, ip: int, len: int)
    requires
        len >= 0,
    ensures
        zero_run(input, ip, len) matches Some((n, at)) ==> at > ip && n > len && at <= input.len(),
        zero_run(input, ip, len) matches Some((n, at)) ==> (len <= MAX_RUN ==> n <= MAX_RUN + 255),
    decreases input.len() - ip,
{
    if ip < input.len() && input[ip] == 0 && len + 255 <= MAX_RUN {
        lemma_zero_run_moves_on(input, ip + 1, len + 255);
    }
}

#[via_fn]
proof fn decoded_from_decreases(
    input: Seq<u8>,
    ip: int,
    out: Seq<u8>,
    state: int,
    max_out: nat,
) {
    lemma_zero_run_moves_on(input, ip + 1, 31);
    lemma_zero_run_moves_on(input, ip + 1, 7);
    lemma_zero_run_moves_on(input, ip + 1, 15);
}

/// What an LZO1X stream decodes to, in at most `max_out` bytes.
pub open spec fn decoded(input: Seq<u8>, max_out: nat) -> Option<Seq<u8>> {
    if input.len() == 0 {
        None
    } else if input[0] >= 18 {
        let n = input[0] - 17;
        match literals(input, 1, Seq::empty(), n, max_out) {
            None => None,
            Some(grown) => decoded_from(
                input,
                1 + n,
                grown,
                if n < 4 {
                    n
                } else {
                    4
                },
                max_out,
            ),
        }
    } else {
        decoded_from(input, 0, Seq::empty(), 0, max_out)
    }
}

/// A decoder at work: where it stands in the input, and what it has made.
struct Decoder<'a> {
    input: &'a [u8],
    ip: usize,
    out: Vec<u8>,
    max_out: usize,
}

fn error() -> (e: Error)
    ensures
        e == malformed(),
{
    Error::BadMetadata("malformed LZO1X stream")
}

impl<'a> Decoder<'a> {
    spec fn wf(&self) -> bool {
        &&& self.ip <= self.input.len()
        &&& self.out.len() <= self.max_out
    }

    /// `self` differs from `other` at most in its position.
    spec fn moved(&self, other: &Self) -> bool {
        &&& self.wf()
        &&& self.input == other.input
        &&& self.out == other.out
        &&& self.max_out == other.max_out
    }

    fn next(&mut self) -> (r: Result<u8>)
        requires
            old(self).wf(),
        ensures
            final(self).moved(&*old(self)),
            match r {
                Ok(b) => {
                    &&& old(self).ip < old(self).input.len()
                    &&& b == old(self).input@[old(self).ip as int]
                    &&& final(self).ip == old(self).ip + 1
                },
                Err(e) => e == malformed() && old(self).ip == old(self).input.len(),
            },
    {
        if self.ip >= self.input.len() {
            return Err(error());
        }
        let b: u8 = self.input[self.ip];
        self.ip = self.ip + 1;
        Ok(b)
    }

    /// Reads a little-endian 16-bit operand.
    fn next_le16(&mut self) -> (r: Result<u16>)
        requires
            old(self).wf(),
        ensures
            final(self).moved(&*old(self)),
            match r {
                Ok(v) => {
                    &&& operand(old(self).input@, old(self).ip as int) == Some(v as int)
                    &&& final(self).ip == old(self).ip + 2
                },
                Err(e) => e == malformed() && operand(old(self).input@, old(self).ip as int)
                    is None,
            },
    {
        let lo: u16 = self.next()? as u16;
        let hi: u16 = self.next()? as u16;
        Ok(lo + 0x100 * hi)
    }

    /// Extends the length `base` by the zero run at hand.
    fn extend_length(&mut self, base: usize) -> (r: Result<usize>)
        requires
            old(self).wf(),
            base <= MAX_RUN,
        ensures
            final(self).moved(&*old(self)),
            match r {
                Ok(n) => {
                    &&& zero_run(old(self).input@, old(self).ip as int, base as int) == Some(
                        (n as int, final(self).ip as int),
                    )
                    &&& n <= MAX_RUN + 255
                },
                Err(e) => e == malformed() && zero_run(
                    old(self).input@,
                    old(self).ip as int,
                    base as int,
                ) is None,
            },
    {
        let mut len: usize = base;
        loop
            invariant
                self.moved(&*old(self)),
                len <= MAX_RUN,
                zero_run(self.input@, self.ip as int, len as int) == zero_run(
                    old(self).input@,
                    old(self).ip as int,
                    base as int,
                ),
            decreases self.input.len() - self.ip,
        {
            let b: u8 = self.next()?;
            if b != 0 {
                return Ok(len + b as usize);
            }
            len = len + 255;
            if len > MAX_RUN {
                return Err(error());
            }
        }
    }

    /// Repeats `len` bytes from `dist` back, byte by byte, so that a match
    /// may overlap what it makes.
    fn copy_match(&mut self, dist: usize, len: usize) -> (r: Result<()>)
        requires
            old(self).wf(),
        ensures
            final(self).wf(),
            final(self).input == old(self).input,
            final(self).ip == old(self).ip,
            final(self).max_out == old(self).max_out,
            match r {
                Ok(_) => matched(old(self).out@, dist as int, len as int, old(self).max_out as nat)
                    == Some(final(self).out@),
                Err(e) => {
                    &&& e == malformed()
                    &&& matched(
                        old(self).out@,
                        dist as int,
                        len as int,
                        old(self).max_out as nat,
                    ) is None
                    &&& final(self).out@ == old(self).out@
                },
            },
    {
        let had: usize = self.out.len();
        if dist == 0 || dist > had || len > self.max_out - had {
            return Err(error());
        }
        let ghost before = self.out@;
        let mut k: usize = 0;
        while k < len
            invariant
                before == old(self).out@,
                had == before.len(),
                0 < dist <= had,
                k <= len,
                had + len <= self.max_out,
                self.input == old(self).input,
                self.ip == old(self).ip,
                self.ip <= self.input.len(),
                self.max_out == old(self).max_out,
                self.out@ == with_match(before, dist as int, k as int),
            decreases len - k,
        {
            let b: u8 = self.out[had - dist + k];
            proof {
                if k < dist {
                    vstd::arithmetic::div_mod::lemma_small_mod(k as nat, dist as nat);
                } else {
                    vstd::arithmetic::div_mod::lemma_mod_sub_multiples_vanish(
                        k as int,
                        dist as int,
                    );
                }
            }
            self.out.push(b);
            assert(self.out@ =~= with_match(before, dist as int, k + 1));
            k = k + 1;
        }
        Ok(())
    }

    /// Copies `n` bytes from the input.
    fn copy_literals(&mut self, n: usize) -> (r: Result<()>)
        requires
            old(self).wf(),
        ensures
            final(self).wf(),
            final(self).input == old(self).input,
            final(self).max_out == old(self).max_out,
            match r {
                Ok(_) => {
                    &&& literals(
                        old(self).input@,
                        old(self).ip as int,
                        old(self).out@,
                        n as int,
                        old(self).max_out as nat,
                    ) == Some(final(self).out@)
                    &&& final(self).ip == old(self).ip + n
                },
                Err(e) => {
                    &&& e == malformed()
                    &&& literals(
                        old(self).input@,
                        old(self).ip as int,
                        old(self).out@,
                        n as int,
                        old(self).max_out as nat,
                    ) is None
                    &&& final(self).out@ == old(self).out@
                    &&& final(self).ip == old(self).ip
                },
            },
    {
        if n > self.max_out - self.out.len() || n > self.input.len() - self.ip {
            return Err(error());
        }
        let end: usize = self.ip + n;
        self.out.extend_from_slice(&self.input[self.ip..end]);
        self.ip = end;
        assert(self.out@ =~= old(self).out@ + old(self).input@.subrange(
            old(self).ip as int,
            old(self).ip + n,
        ));
        Ok(())
    }

    /// Decodes the whole stream.
    #[verifier::rlimit(40)]
    fn run(&mut self) -> (r: Result<()>)
        requires
            old(self).wf(),
            old(self).ip == 0,
            old(self).out@.len() == 0,
        ensures
            final(self).wf(),
            final(self).max_out == old(self).max_out,
            match r {
                Ok(_) => decoded(old(self).input@, old(self).max_out as nat) == Some(
                    final(self).out@,
                ),
                Err(e) => e == malformed() && decoded(old(self).input@, old(self).max_out as nat)
                    is None,
            },
    {
        assert(self.out@ =~= Seq::empty());
        if self.input.len() == 0 {
            return Err(error());
        }
        let first: u8 = self.input[0];
        let mut state: usize = 0;
        if first >= 18 {
            self.ip = 1;
            let n: usize = (first - 17) as usize;
            self.copy_literals(n)?;
            state = if n < 4 {
                n
            } else {
                4
            };
        }
        loop
            invariant
                self.wf(),
                state <= 4,
                self.input == old(self).input,
                self.max_out == old(self).max_out,
                decoded_from(
                    self.input@,
                    self.ip as int,
                    self.out@,
                    state as int,
                    self.max_out as nat,
                ) == decoded(old(self).input@, old(self).max_out as nat),
            decreases self.input.len() - self.ip,
        {
            let ghost at = self.ip as int;
            let t: u8 = self.next()?;
            if t < 16 && state == 0 {
                let n: usize = if t == 0 {
                    self.extend_length(15)? + 3
                } else {
                    t as usize + 3
                };
                proof {
                    lemma_zero_run_moves_on(self.input@, at + 1, 15);
                }
                self.copy_literals(n)?;
                state = 4;
                continue;
            }
            let (len, dist, new_state): (usize, usize, usize) = if t >= 64 || t < 16 {
                let h: usize = self.next()? as usize;
                let ss: usize = (t % 4) as usize;
                if t >= 128 {
                    (5 + ((t / 32) % 4) as usize, 8 * h + ((t / 4) % 8) as usize + 1, ss)
                } else if t >= 64 {
                    (3 + ((t / 32) % 2) as usize, 8 * h + ((t / 4) % 8) as usize + 1, ss)
                } else if state == 4 {
                    (3, 4 * h + ((t / 4) % 4) as usize + 2049, ss)
                } else {
                    (2, 4 * h + ((t / 4) % 4) as usize + 1, ss)
                }
            } else if t >= 32 {
                let len: usize = if t % 32 == 0 {
                    self.extend_length(31)? + 2
                } else {
                    (t % 32) as usize + 2
                };
                let op: usize = self.next_le16()? as usize;
                proof {
                    lemma_zero_run_moves_on(self.input@, at + 1, 31);
                }
                (len, op / 4 + 1, op % 4)
            } else {
                let len: usize = if t % 8 == 0 {
                    self.extend_length(7)? + 2
                } else {
                    (t % 8) as usize + 2
                };
                let op: usize = self.next_le16()? as usize;
                let dist: usize = 16384 + 16384 * ((t / 8) % 2) as usize + op / 4;
                proof {
                    lemma_zero_run_moves_on(self.input@, at + 1, 7);
                }
                if dist == 16384 {
                    return Ok(());
                }
                (len, dist, op % 4)
            };
            self.copy_match(dist, len)?;
            self.copy_literals(new_state)?;
            state = new_state;
        }
    }
}

/// Decompresses an LZO1X stream. The stream ends itself; `max_out` only
/// bounds what a corrupt one may make.
pub fn decompress(input: &[u8], max_out: usize) -> (r: Result<Vec<u8>>)
    ensures
        match r {
            Ok(out) => decoded(input@, max_out as nat) == Some(out@) && out.len() <= max_out,
            Err(e) => e == malformed() && decoded(input@, max_out as nat) is None,
        },
{
    let cap: usize = if max_out < 0x10_0000 {
        max_out
    } else {
        0x10_0000
    };
    let mut d = Decoder { input, ip: 0, out: Vec::with_capacity(cap), max_out };
    d.run()?;
    Ok(d.out)
}

// ---- laws ----

/// What a stream decodes to is never longer than the bound, nor shorter than
/// what came before; with another bound it is the same wherever it fits, and
/// nothing where it does not.
proof fn lemma_decoded_from_bounds(
    input: Seq<u8>,
    ip: int,
    out: Seq<u8>,
    state: int,
    n: nat,
    m: nat,
)
    requires
        0 <= ip,
        0 <= state,
        out.len() <= n,
    ensures
        decoded_from(input, ip, out, state, n) matches Some(all) ==> {
            &&& out.len() <= all.len() <= n
            &&& all.len() <= m ==> decoded_from(input, ip, out, state, m) == Some(all)
            &&& out.len() <= m < all.len() ==> decoded_from(input, ip, out, state, m) is None
        },
    decreases input.len() - ip,
{
    lemma_zero_run_moves_on(input, ip + 1, 31);
    lemma_zero_run_moves_on(input, ip + 1, 7);
    lemma_zero_run_moves_on(input, ip + 1, 15);
    match instruction(input, ip, state) {
        None => {},
        Some((Step::End, _)) => {},
        Some((Step::Literals(k), at)) => {
            if let Some(grown) = literals(input, at, out, k, n) {
                lemma_decoded_from_bounds(input, at + k, grown, 4, n, m);
            }
        },
        Some((Step::Match { len, dist, state: s }, at)) => {
            if let Some(repeated) = matched(out, dist, len, n) {
                if let Some(grown) = literals(input, at, repeated, s, n) {
                    lemma_decoded_from_bounds(input, at + s, grown, s, n, m);
                }
            }
        },
    }
}

/// A stream never decodes to more than the bound.
pub proof fn decoded_is_bounded(input: Seq<u8>, max_out: nat)
    ensures
        decoded(input, max_out) matches Some(out) ==> out.len() <= max_out,
{
    decoded_at_another_bound(input, max_out, max_out);
}

/// The bound only refuses: a stream that decodes under one bound decodes to
/// the same bytes under every bound that holds them, and to nothing under any
/// other.
pub proof fn decoded_at_another_bound(input: Seq<u8>, n: nat, m: nat)
    ensures
        decoded(input, n) matches Some(out) ==> out.len() <= n && decoded(input, m) == (
        if out.len() <= m {
            Some(out)
        } else {
            None
        }),
{
    if input.len() > 0 {
        if input[0] >= 18 {
            let k = input[0] - 17;
            if let Some(grown) = literals(input, 1, Seq::empty(), k, n) {
                lemma_decoded_from_bounds(
                    input,
                    1 + k,
                    grown,
                    if k < 4 {
                        k
                    } else {
                        4
                    },
                    n,
                    m,
                );
            }
        } else {
            lemma_decoded_from_bounds(input, 0, Seq::empty(), 0, n, m);
        }
    }
}

/// Nothing behind the end of a stream matters.
pub proof fn end_marker_ends_the_stream(input: Seq<u8>, more: Seq<u8>, max_out: nat)
    requires
        decoded(input, max_out) is Some,
    ensures
        decoded(input + more, max_out) == decoded(input, max_out),
{
    let longer = input + more;
    if input[0] >= 18 {
        let k = input[0] - 17;
        assert(longer.subrange(1, 1 + k) =~= input.subrange(1, 1 + k));
        let grown = literals(input, 1, Seq::empty(), k, max_out)->0;
        lemma_more_input(
            input,
            more,
            1 + k,
            grown,
            if k < 4 {
                k
            } else {
                4
            },
            max_out,
        );
    } else {
        lemma_more_input(input, more, 0, Seq::empty(), 0, max_out);
    }
}

proof fn lemma_zero_run_more(input: Seq<u8>, more: Seq<u8>, ip: int, len: int)
    requires
        0 <= ip,
    ensures
        zero_run(input, ip, len) is Some ==> zero_run(input + more, ip, len) == zero_run(
            input,
            ip,
            len,
        ),
    decreases input.len() - ip,
{
    if ip < input.len() && input[ip] == 0 && len + 255 <= MAX_RUN {
        lemma_zero_run_more(input, more, ip + 1, len + 255);
    }
}

proof fn lemma_more_input(
    input: Seq<u8>,
    more: Seq<u8>,
    ip: int,
    out: Seq<u8>,
    state: int,
    max_out: nat,
)
    requires
        0 <= ip,
        0 <= state,
        decoded_from(input, ip, out, state, max_out) is Some,
    ensures
        decoded_from(input + more, ip, out, state, max_out) == decoded_from(
            input,
            ip,
            out,
            state,
            max_out,
        ),
    decreases input.len() - ip,
{
    let longer = input + more;
    lemma_zero_run_moves_on(input, ip + 1, 31);
    lemma_zero_run_moves_on(input, ip + 1, 7);
    lemma_zero_run_moves_on(input, ip + 1, 15);
    lemma_zero_run_more(input, more, ip + 1, 31);
    lemma_zero_run_more(input, more, ip + 1, 7);
    lemma_zero_run_more(input, more, ip + 1, 15);
    assert(instruction(longer, ip, state) == instruction(input, ip, state));
    match instruction(input, ip, state) {
        None => {},
        Some((Step::End, _)) => {},
        Some((Step::Literals(k), at)) => {
            assert(longer.subrange(at, at + k) =~= input.subrange(at, at + k));
            if let Some(grown) = literals(input, at, out, k, max_out) {
                lemma_more_input(input, more, at + k, grown, 4, max_out);
            }
        },
        Some((Step::Match { len, dist, state: s }, at)) => {
            if let Some(repeated) = matched(out, dist, len, max_out) {
                assert(longer.subrange(at, at + s) =~= input.subrange(at, at + s));
                if let Some(grown) = literals(input, at, repeated, s, max_out) {
                    lemma_more_input(input, more, at + s, grown, s, max_out);
                }
            }
        },
    }
}

} // verus!
