//! The block device an image is read from.

use vstd::prelude::*;

use crate::error::BlockError;

verus! {

/// The error for a read of `want` bytes at `offset` that `image` cannot
/// serve in full: `got` counts the bytes that are there.
pub open spec fn short_read(image: Seq<u8>, offset: nat, want: nat) -> BlockError {
    BlockError::ShortRead {
        offset: offset as u64,
        want: want as usize,
        got: if offset < image.len() {
            (image.len() - offset) as usize
        } else {
            0
        },
    }
}

/// What a dependable device over `image` answers to a read.
pub open spec fn served(image: Seq<u8>, offset: nat, len: nat) -> core::result::Result<
    Seq<u8>,
    BlockError,
> {
    if offset + len <= image.len() {
        Ok(image.subrange(offset as int, (offset + len) as int))
    } else {
        Err(short_read(image, offset, len))
    }
}

/// A read-only, random-access device holding the bytes of an image.
///
/// The bytes do not change while the device is in use: SquashFS is
/// read-only, and an image that changes under a reader is not one. A device
/// may still fail to serve a range it has.
pub trait BlockRead {
    /// The bytes of the device, from offset 0.
    ///
    /// A device that says nothing of its bytes has some all the same: the
    /// contracts of the reader then hold of whatever they are.
    open spec fn image(&self) -> Seq<u8> {
        vstd::pervasive::arbitrary()
    }

    /// Whether every read inside the device succeeds and every other read
    /// fails as a short read. Nothing is known of a device that does not say.
    open spec fn dependable(&self) -> bool {
        vstd::pervasive::arbitrary()
    }

    /// Reads exactly `len` bytes starting at `offset`.
    fn read_at(&self, offset: u64, len: usize) -> (r: core::result::Result<Vec<u8>, BlockError>)
        ensures
            match r {
                Ok(b) => served(self.image(), offset as nat, len as nat) == Ok::<
                    Seq<u8>,
                    BlockError,
                >(b@),
                Err(e) => self.dependable() ==> served(self.image(), offset as nat, len as nat)
                    == Err::<Seq<u8>, BlockError>(e),
            },
    ;

    /// The size of the device in bytes.
    fn size_bytes(&self) -> (n: u64)
        ensures
            n == self.image().len(),
    ;
}

/// A whole image held in memory.
#[derive(Debug)]
pub struct MemDevice {
    bytes: Vec<u8>,
}

impl MemDevice {
    /// A device that serves `bytes`.
    pub fn new(bytes: Vec<u8>) -> (r: MemDevice)
        ensures
            r.image() == bytes@,
            r.dependable(),
    {
        MemDevice { bytes }
    }
}

impl BlockRead for MemDevice {
    closed spec fn image(&self) -> Seq<u8> {
        self.bytes@
    }

    open spec fn dependable(&self) -> bool {
        true
    }

    fn read_at(&self, offset: u64, len: usize) -> (r: core::result::Result<Vec<u8>, BlockError>) {
        let size: usize = self.bytes.len();
        if len > size || offset > (size - len) as u64 {
            let got: usize = if offset < size as u64 {
                size - offset as usize
            } else {
                0
            };
            return Err(BlockError::ShortRead { offset, want: len, got });
        }
        let start: usize = offset as usize;
        let mut out: Vec<u8> = Vec::with_capacity(len);
        out.extend_from_slice(&self.bytes[start..start + len]);
        assert(out@ =~= self.bytes@.subrange(start as int, start + len));
        Ok(out)
    }

    fn size_bytes(&self) -> (n: u64) {
        self.bytes.len() as u64
    }
}

} // verus!
