//! Which decoder a block is given to.

use vstd::prelude::*;

use crate::bcj::Bcj;
use crate::decompress::Compressor;
use crate::error::Error;

verus! {

/// The id that a writer puts into the superblock for a compressor.
pub open spec fn id_of(comp: Compressor) -> u16 {
    match comp {
        Compressor::Gzip => 1,
        Compressor::Lzma => 2,
        Compressor::Lzo => 3,
        Compressor::Xz => 4,
        Compressor::Lz4 => 5,
        Compressor::Zstd => 6,
    }
}

/// A compressor is known by its id, and an id that none has is not supported.
pub proof fn compressors_are_known_by_their_ids(id: u16, comp: Compressor)
    ensures
        crate::decompress::compressor_of(id) == Ok::<Compressor, Error>(comp) <==> id == id_of(
            comp,
        ),
        id == 0 || id > 6 ==> crate::decompress::compressor_of(id) == Err::<Compressor, Error>(
            Error::UnsupportedCompression(id),
        ),
{
}

/// A block that one of the codecs decodes to the end, within the bound, is
/// what that codec makes of it: each compressor has its own.
#[verifier::rlimit(60)]
pub proof fn blocks_are_decoded_by_their_codec(input: Seq<u8>, max_out: nat, out: Seq<u8>)
    requires
        out.len() <= max_out,
    ensures
        crate::decompress::zlib_inflated(input, max_out) == Some((true, out))
            ==> crate::decompress::decompressed(Compressor::Gzip, input, max_out) == Ok::<
            Seq<u8>,
            Error,
        >(out),
        crate::decompress::lzma_decoded(input) == (true, out) ==> crate::decompress::decompressed(
            Compressor::Lzma,
            input,
            max_out,
        ) == Ok::<Seq<u8>, Error>(out),
        crate::decompress::lz4_decoded(input, max_out) == Some(out)
            ==> crate::decompress::decompressed(Compressor::Lz4, input, max_out) == Ok::<
            Seq<u8>,
            Error,
        >(out),
        crate::decompress::zstd_decoded(input) == Some((true, out))
            ==> crate::decompress::decompressed(Compressor::Zstd, input, max_out) == Ok::<
            Seq<u8>,
            Error,
        >(out),
        crate::lzo1x::decoded(input, max_out) == Some(out) ==> crate::decompress::decompressed(
            Compressor::Lzo,
            input,
            max_out,
        ) == Ok::<Seq<u8>, Error>(out),
        !crate::xz::is_filtered(input) && !crate::xz::is_boundless(input)
            && crate::decompress::xz_decoded(input) == (true, out)
            ==> crate::decompress::decompressed(Compressor::Xz, input, max_out) == Ok::<
            Seq<u8>,
            Error,
        >(out),
        crate::xz::is_filtered(input) ==> crate::decompress::decompressed(
            Compressor::Xz,
            input,
            max_out,
        ) == crate::xz::stream_decoded(input, max_out, true),
{
}

/// What a block is said to decompress to is what its codec made of it, to the
/// very end: never a part of it, never more than the bound.
#[verifier::rlimit(60)]
pub proof fn blocks_are_never_cut(comp: Compressor, input: Seq<u8>, max_out: nat, out: Seq<u8>)
    requires
        crate::decompress::decompressed(comp, input, max_out) == Ok::<Seq<u8>, Error>(out),
    ensures
        out.len() <= max_out,
        comp == Compressor::Gzip ==> crate::decompress::zlib_inflated(input, max_out) == Some(
            (true, out),
        ),
        comp == Compressor::Lzma ==> crate::decompress::lzma_decoded(input) == (true, out),
        comp == Compressor::Lz4 ==> crate::decompress::lz4_decoded(input, max_out) == Some(out),
        comp == Compressor::Zstd ==> crate::decompress::zstd_decoded(input) == Some((true, out)),
        comp == Compressor::Lzo ==> crate::lzo1x::decoded(input, max_out) == Some(out),
        comp == Compressor::Xz && !crate::xz::is_filtered(input)
            ==> crate::decompress::xz_decoded(input) == (true, out),
{
    crate::decompress::decompressed_is_bounded(comp, input, max_out);
}

/// What no codec decodes is refused as malformed metadata.
#[verifier::rlimit(60)]
pub proof fn other_blocks_are_refused(comp: Compressor, input: Seq<u8>, max_out: nat)
    requires
        comp == Compressor::Xz ==> !crate::xz::is_filtered(input),
    ensures
        crate::decompress::decompressed(comp, input, max_out) matches Err(e)
            ==> e is BadMetadata,
{
}

/// The bound that holds is the caller's, for every codec, unless that is more
/// than memory can hold; and it is never more than the caller's.
pub proof fn bounds_are_those_of_the_caller(comp: Compressor, max_out: usize)
    ensures
        max_out < isize::MAX ==> crate::decompress::bound_for(comp, max_out) == max_out,
        max_out < isize::MAX ==> crate::decompress::ceiling(max_out) == max_out,
        crate::decompress::bound_for(comp, max_out) <= max_out,
        crate::decompress::ceiling(max_out) <= max_out,
        max_out >= isize::MAX ==> crate::decompress::ceiling(max_out) == isize::MAX - 1,
{
}

/// The id that a writer puts into a block header for a converter.
pub open spec fn filter_id(kind: Bcj) -> u64 {
    match kind {
        Bcj::X86 => 4,
        Bcj::PowerPc => 5,
        Bcj::Ia64 => 6,
        Bcj::Arm => 7,
        Bcj::ArmThumb => 8,
        Bcj::Sparc => 9,
    }
}

/// A converter is known by its id, and any other id is refused.
pub proof fn converters_are_known_by_their_ids(id: u64, kind: Bcj)
    ensures
        crate::bcj::bcj_named(id) == Ok::<Bcj, Error>(kind) <==> id == filter_id(kind),
        id < 4 || id > 9 ==> crate::bcj::bcj_named(id) matches Err(Error::BadMetadata(_)),
{
}

} // verus!
