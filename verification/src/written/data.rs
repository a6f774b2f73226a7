//! The data of files, as it is written.

use vstd::prelude::*;

use crate::data::Volume;
use crate::decompress::Compressor;
use crate::error::Error;
use crate::inode::{FileType, InodeData};

verus! {

/// The size on disk that a size word holds, and whether it marks a block that
/// is stored as it is. The size takes 24 bits and the mark the next one.
pub proof fn size_words_are_read_back(size: u32, as_it_is: bool)
    requires
        size < 0x100_0000,
    ensures
        ({
            let word = if as_it_is {
                (0x100_0000 + size) as u32
            } else {
                size
            };
            &&& crate::table::on_disk_size(word) == size
            &&& crate::table::is_compressed(word) == !as_it_is
        }),
{
}

/// A data block that stands in the image is what the decoder of the volume's
/// own compressor makes of it, whichever compressor that is, or its very
/// bytes where it is marked as stored so. A block that is larger on disk than
/// blocks are is refused.
#[verifier::rlimit(60)]
pub proof fn data_block_is_read_back(
    image: Seq<u8>,
    comp: Compressor,
    block_size: u32,
    abs: u64,
    size_word: u32,
    max_out: nat,
)
    ensures
        ({
            let size = size_word % 0x100_0000;
            let raw = image.subrange(abs as int, abs + size);
            let got = crate::data::data_block_at(image, comp, block_size, abs, size_word, max_out);
            let as_it_is = (size_word / 0x100_0000) % 2 == 1;
            &&& size > block_size ==> (got matches Err(Error::BadInode(_)))
            &&& size <= block_size && abs + size > image.len() ==> (got matches Err(Error::Block(_)))
            &&& size <= block_size && abs + size <= image.len() && !as_it_is ==> got
                == crate::decompress::decompressed(comp, raw, max_out)
            &&& size <= block_size && abs + size <= image.len() && as_it_is && size <= max_out
                ==> got == Ok::<Seq<u8>, Error>(raw)
            &&& size <= block_size && abs + size <= image.len() && as_it_is && size > max_out
                ==> (got matches Err(Error::BadInode(_)))
        }),
{
    reveal(crate::data::data_block_at);
}

/// Whether the block of `size_word` at `abs` holds `content`: as it is, or
/// compressed by `comp` so that it decompresses to that within `max_out`
/// bytes.
pub open spec fn is_stored(
    image: Seq<u8>,
    comp: Compressor,
    abs: int,
    size_word: u32,
    max_out: nat,
    content: Seq<u8>,
) -> bool {
    let size = size_word % 0x100_0000;
    let raw = image.subrange(abs, abs + size);
    &&& 0 <= abs && abs + size <= image.len()
    &&& content.len() <= max_out
    &&& if (size_word / 0x100_0000) % 2 == 1 {
        raw == content
    } else {
        crate::decompress::decompressed(comp, raw, max_out) == Ok::<Seq<u8>, Error>(content)
    }
}

/// Where block `i` of a file stands: behind all blocks before it.
pub open spec fn laid_at(d: InodeData, i: nat) -> int
    decreases i,
{
    if i == 0 {
        d.blocks_start as int
    } else {
        laid_at(d, (i - 1) as nat) + d.block_sizes[i - 1] % 0x100_0000
    }
}

/// How much of a file of `size` bytes its first `n` blocks hold.
pub open spec fn held_by(size: nat, block_size: nat, n: nat) -> nat {
    if n * block_size < size {
        n * block_size
    } else {
        size
    }
}

/// Block `i` of `content`.
pub open spec fn piece(content: Seq<u8>, block_size: nat, i: nat) -> Seq<u8> {
    content.subrange(
        held_by(content.len(), block_size, i) as int,
        held_by(content.len(), block_size, i + 1) as int,
    )
}

/// Whether block `i` of a file holds its piece of `content`. A block of zeros
/// may be left out.
pub open spec fn block_is_written(
    image: Seq<u8>,
    vol: Volume,
    d: InodeData,
    content: Seq<u8>,
    i: nat,
) -> bool {
    let size_word = d.block_sizes[i as int];
    let part = piece(content, vol.block_size as nat, i);
    if size_word % 0x100_0000 == 0 {
        forall|k: int| 0 <= k < part.len() ==> #[trigger] part[k] == 0
    } else {
        &&& size_word % 0x100_0000 <= vol.block_size
        &&& is_stored(image, vol.comp, laid_at(d, i), size_word, part.len(), part)
    }
}

/// Whether what the blocks leave over of `content` stands in the fragment
/// block of the file, whose bytes are `shared`.
pub open spec fn tail_is_written(
    image: Seq<u8>,
    vol: Volume,
    d: InodeData,
    content: Seq<u8>,
    shared: Seq<u8>,
) -> bool {
    let entry = vol.fragments[d.fragment_index as int];
    let from = d.block_sizes.len() * vol.block_size;
    &&& d.fragment_index != 0xFFFF_FFFF
    &&& d.fragment_index < vol.fragments.len()
    &&& entry.size % 0x100_0000 <= vol.block_size
    &&& is_stored(
        image,
        vol.comp,
        entry.start as int,
        entry.size,
        vol.block_size as nat,
        shared,
    )
    &&& super::numbers::stands(
        shared,
        d.fragment_offset as int,
        content.subrange(from as int, content.len() as int),
    )
}

/// Whether the image holds `content` as the data of the file `d`: in blocks,
/// one behind the other, and what they leave over in the fragment block
/// `shared`.
pub open spec fn file_is_written(
    image: Seq<u8>,
    vol: Volume,
    d: InodeData,
    content: Seq<u8>,
    shared: Seq<u8>,
) -> bool {
    let n = d.block_sizes.len();
    let bs = vol.block_size as nat;
    &&& bs > 0
    &&& d.inode_type == 2 || d.inode_type == 9
    &&& d.file_size == content.len()
    &&& laid_at(d, n) <= u64::MAX
    &&& forall|i: nat| i < n ==> #[trigger] block_is_written(image, vol, d, content, i)
    &&& n * bs < content.len() ==> tail_is_written(image, vol, d, content, shared)
}

pub proof fn lemma_laid_at(d: InodeData, i: nat, n: nat)
    requires
        i <= n <= d.block_sizes.len(),
        laid_at(d, n) <= u64::MAX,
    ensures
        0 <= laid_at(d, i) <= u64::MAX,
        crate::data::block_start(d, i) == laid_at(d, i),
    decreases n,
{
    if i < n {
        lemma_laid_at(d, i, (n - 1) as nat);
    } else if i > 0 {
        lemma_laid_at(d, (i - 1) as nat, (i - 1) as nat);
    }
}

proof fn lemma_block(
    image: Seq<u8>,
    vol: Volume,
    d: InodeData,
    content: Seq<u8>,
    shared: Seq<u8>,
    i: nat,
)
    requires
        file_is_written(image, vol, d, content, shared),
        i * vol.block_size < content.len(),
    ensures
        crate::data::logical_block(image, vol, d, i) == Ok::<Seq<u8>, Error>(
            piece(content, vol.block_size as nat, i),
        ),
{
    let n = d.block_sizes.len();
    let bs = vol.block_size as nat;
    let part = piece(content, bs, i);
    assert((i + 1) * bs == i * bs + bs) by (nonlinear_arith);
    assert(part.len() == crate::data::block_len(content.len(), bs, i));
    if i < n {
        assert(block_is_written(image, vol, d, content, i));
        lemma_laid_at(d, i, n);
        let word = d.block_sizes[i as int];
        if word % 0x100_0000 == 0 {
            assert(part =~= Seq::new(part.len(), |k: int| 0u8));
        } else {
            data_block_is_read_back(
                image,
                vol.comp,
                vol.block_size,
                crate::data::block_start(d, i),
                word,
                part.len(),
            );
        }
    } else {
        assert(n * bs <= i * bs) by (nonlinear_arith)
            requires
                n <= i,
        ;
        assert(tail_is_written(image, vol, d, content, shared));
        let entry = vol.fragments[d.fragment_index as int];
        data_block_is_read_back(
            image,
            vol.comp,
            vol.block_size,
            entry.start,
            entry.size,
            bs,
        );
        let tail = content.subrange((n * bs) as int, content.len() as int);
        if i > n {
            assert(i * bs >= (n + 1) * bs) by (nonlinear_arith)
                requires
                    i >= n + 1,
            ;
            assert((n + 1) * bs == n * bs + bs) by (nonlinear_arith);
            assert(tail.len() <= shared.len() <= bs);
        }
        assert(part =~= tail);
        assert(d.kind() == FileType::RegFile);
    }
}

proof fn lemma_span(
    image: Seq<u8>,
    vol: Volume,
    d: InodeData,
    content: Seq<u8>,
    shared: Seq<u8>,
    pos: nat,
    end: nat,
)
    requires
        file_is_written(image, vol, d, content, shared),
        pos <= end <= content.len(),
    ensures
        crate::data::span(image, vol, d, pos, end) == Ok::<Seq<u8>, Error>(
            content.subrange(pos as int, end as int),
        ),
    decreases end - pos,
{
    if pos == end {
        assert(content.subrange(pos as int, end as int) =~= Seq::empty());
    } else {
        let bs = vol.block_size as nat;
        let i = pos / bs;
        let off = pos % bs;
        vstd::arithmetic::div_mod::lemma_fundamental_div_mod(pos as int, bs as int);
        assert(i * bs == bs * i) by (nonlinear_arith);
        assert((i + 1) * bs == i * bs + bs) by (nonlinear_arith);
        lemma_block(image, vol, d, content, shared, i);
        let block = piece(content, bs, i);
        let take = if block.len() - off < end - pos {
            (block.len() - off) as nat
        } else {
            (end - pos) as nat
        };
        lemma_span(image, vol, d, content, shared, pos + take, end);
        assert(block.subrange(off as int, (off + take) as int) + content.subrange(
            (pos + take) as int,
            end as int,
        ) =~= content.subrange(pos as int, end as int));
    }
}

/// A file that was written is read back: every read of it, at any offset and
/// of any length, gives the bytes that were written there, up to the end of
/// the file.
pub proof fn file_is_read_back(
    image: Seq<u8>,
    vol: Volume,
    d: InodeData,
    content: Seq<u8>,
    shared: Seq<u8>,
    offset: nat,
    wanted: nat,
)
    requires
        file_is_written(image, vol, d, content, shared),
    ensures
        crate::data::file_read(image, vol, d, offset, wanted) == Ok::<Seq<u8>, Error>(
            if offset >= content.len() {
                Seq::empty()
            } else if offset + wanted <= content.len() {
                content.subrange(offset as int, (offset + wanted) as int)
            } else {
                content.subrange(offset as int, content.len() as int)
            },
        ),
{
    if offset < content.len() {
        let n = if offset + wanted <= content.len() {
            wanted
        } else {
            (content.len() - offset) as nat
        };
        lemma_span(image, vol, d, content, shared, offset, offset + n);
    }
}

/// A read of a file that was written and that fails half way has put bytes of
/// the file at the start of the buffer, and left the rest of it as it was.
pub proof fn failed_reads_leave_the_rest(
    image: Seq<u8>,
    vol: Volume,
    d: InodeData,
    content: Seq<u8>,
    shared: Seq<u8>,
    offset: nat,
    before: Seq<u8>,
    after: Seq<u8>,
) -> (k: nat)
    requires
        file_is_written(image, vol, d, content, shared),
        offset + before.len() <= content.len(),
        after.len() == before.len(),
        crate::data::partly_filled(image, vol, d, offset, before, after),
    ensures
        k <= after.len(),
        forall|j: int| 0 <= j < k ==> #[trigger] after[j] == content[offset + j],
        forall|j: int| k <= j < after.len() ==> #[trigger] after[j] == before[j],
{
    let k = choose|k: nat|
        k <= before.len() && crate::data::span(image, vol, d, offset, offset + k) == Ok::<
            Seq<u8>,
            Error,
        >(#[trigger] after.take(k as int)) && after.skip(k as int) == before.skip(k as int);
    lemma_span(image, vol, d, content, shared, offset, offset + k);
    assert forall|j: int| 0 <= j < k implies #[trigger] after[j] == content[offset + j] by {
        assert(after.take(k as int)[j] == after[j]);
    }
    assert forall|j: int| k <= j < after.len() implies #[trigger] after[j] == before[j] by {
        assert(after.skip(k as int)[j - k] == before.skip(k as int)[j - k]);
    }
    k
}

/// Only regular files are read, whatever the image holds.
pub proof fn other_inodes_are_not_read(
    image: Seq<u8>,
    vol: Volume,
    d: InodeData,
    offset: nat,
    wanted: nat,
)
    requires
        d.inode_type != 2,
        d.inode_type != 9,
    ensures
        crate::data::file_read(image, vol, d, offset, wanted) matches Err(Error::BadInode(_)),
{
}

} // verus!
