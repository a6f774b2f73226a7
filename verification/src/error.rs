//! Errors returned by the SquashFS reader, and the errno each one maps to.

use vstd::prelude::*;
use vstd::string::*;

verus! {

/// POSIX errno: no such file or directory.
pub const ENOENT: i32 = 2;

/// POSIX errno: input/output error.
pub const EIO: i32 = 5;

/// POSIX errno: not a directory.
pub const ENOTDIR: i32 = 20;

/// POSIX errno: invalid argument.
pub const EINVAL: i32 = 22;

/// POSIX errno: result too large.
pub const ERANGE: i32 = 34;

/// POSIX errno: operation not supported, as macOS and the BSDs number it.
pub const ENOTSUP: i32 = 45;

/// Why a block device did not serve a read.
#[derive(Debug)]
pub enum BlockError {
    /// The device ran out of data: `got` of the `want` bytes at `offset`.
    ShortRead { offset: u64, want: usize, got: usize },
    /// The range was refused because it is not wholly inside the device.
    OutOfBounds { offset: u64, len: u64, size: u64 },
    /// A write was attempted on a device that is read-only.
    ReadOnly,
    /// Any other failure, in the device's own words.
    Other(String),
}

/// Why an operation on an image failed.
#[derive(Debug)]
pub enum Error {
    /// The underlying block device returned an error.
    Block(BlockError),
    /// The bytes at offset 0 do not carry the "hsqs" magic.
    NotSquashfs,
    /// The superblock holds values that no image can have.
    BadSuperblock(&'static str),
    /// A metadata block header or a compressed payload is malformed.
    BadMetadata(&'static str),
    /// An inode is malformed, or its type is not one that exists.
    BadInode(&'static str),
    /// A directory listing is malformed.
    BadDirent(&'static str),
    /// The image names a compressor with this unknown id.
    UnsupportedCompression(u16),
    /// A name, an attribute or an inode number that is not there.
    NotFound,
    /// A path component that is not a directory.
    NotADirectory,
    /// The image has no export table, so no inode number can be resolved.
    NotExportable,
    /// A read past the end of a file.
    OutOfRange,
}

/// The result of an operation on an image.
pub type Result<T> = core::result::Result<T, Error>;

/// The decimal digit `d` as text.
pub open spec fn digit_text(d: int) -> Seq<char> {
    if d == 0 {
        "0"@
    } else if d == 1 {
        "1"@
    } else if d == 2 {
        "2"@
    } else if d == 3 {
        "3"@
    } else if d == 4 {
        "4"@
    } else if d == 5 {
        "5"@
    } else if d == 6 {
        "6"@
    } else if d == 7 {
        "7"@
    } else if d == 8 {
        "8"@
    } else {
        "9"@
    }
}

/// `n` in decimal, without leading zeros.
pub open spec fn decimal_text(n: nat) -> Seq<char>
    decreases n,
{
    if n < 10 {
        digit_text(n as int)
    } else {
        decimal_text(n / 10) + digit_text((n % 10) as int)
    }
}

fn digit(d: u64) -> (r: &'static str)
    requires
        d < 10,
    ensures
        r@ == digit_text(d as int),
{
    match d {
        0 => "0",
        1 => "1",
        2 => "2",
        3 => "3",
        4 => "4",
        5 => "5",
        6 => "6",
        7 => "7",
        8 => "8",
        _ => "9",
    }
}

/// `n` in decimal.
pub fn decimal(n: u64) -> (r: String)
    ensures
        r@ == decimal_text(n as nat),
    decreases n,
{
    if n < 10 {
        String::from_str(digit(n))
    } else {
        let mut s = decimal(n / 10);
        s.append(digit(n % 10));
        s
    }
}

impl BlockError {
    /// The text of this error.
    pub open spec fn text(&self) -> Seq<char> {
        match *self {
            BlockError::ShortRead { offset, want, got } => {
                "ShortRead { offset: "@ + decimal_text(offset as nat) + ", want: "@ + decimal_text(
                    want as nat,
                ) + ", got: "@ + decimal_text(got as nat) + " }"@
            },
            BlockError::OutOfBounds { offset, len, size } => {
                "OutOfBounds { offset: "@ + decimal_text(offset as nat) + ", len: "@ + decimal_text(
                    len as nat,
                ) + ", size: "@ + decimal_text(size as nat) + " }"@
            },
            BlockError::ReadOnly => "ReadOnly"@,
            BlockError::Other(s) => s@,
        }
    }

    /// This error in words.
    pub fn to_string(&self) -> (r: String)
        ensures
            r@ == self.text(),
    {
        match self {
            BlockError::ShortRead { offset, want, got } => {
                let mut s = String::from_str("ShortRead { offset: ");
                s.append(decimal(*offset).as_str());
                s.append(", want: ");
                s.append(decimal(*want as u64).as_str());
                s.append(", got: ");
                s.append(decimal(*got as u64).as_str());
                s.append(" }");
                s
            },
            BlockError::OutOfBounds { offset, len, size } => {
                let mut s = String::from_str("OutOfBounds { offset: ");
                s.append(decimal(*offset).as_str());
                s.append(", len: ");
                s.append(decimal(*len).as_str());
                s.append(", size: ");
                s.append(decimal(*size).as_str());
                s.append(" }");
                s
            },
            BlockError::ReadOnly => String::from_str("ReadOnly"),
            BlockError::Other(t) => String::from_str(t.as_str()),
        }
    }
}

impl Error {
    /// The errno this error is reported as.
    pub open spec fn errno(&self) -> i32 {
        match *self {
            Error::Block(_) => EIO,
            Error::NotSquashfs => EINVAL,
            Error::BadSuperblock(_) => EINVAL,
            Error::BadMetadata(_) => EIO,
            Error::BadInode(_) => EIO,
            Error::BadDirent(_) => EIO,
            Error::UnsupportedCompression(_) => ENOTSUP,
            Error::NotFound => ENOENT,
            Error::NotADirectory => ENOTDIR,
            Error::NotExportable => ENOTSUP,
            Error::OutOfRange => ERANGE,
        }
    }

    /// The errno for the C interface.
    pub fn to_errno(&self) -> (r: i32)
        ensures
            r == self.errno(),
    {
        match self {
            Error::Block(_) => EIO,
            Error::NotSquashfs => EINVAL,
            Error::BadSuperblock(_) => EINVAL,
            Error::BadMetadata(_) => EIO,
            Error::BadInode(_) => EIO,
            Error::BadDirent(_) => EIO,
            Error::UnsupportedCompression(_) => ENOTSUP,
            Error::NotFound => ENOENT,
            Error::NotADirectory => ENOTDIR,
            Error::NotExportable => ENOTSUP,
            Error::OutOfRange => ERANGE,
        }
    }

    /// The text of this error.
    pub open spec fn text(&self) -> Seq<char> {
        match *self {
            Error::Block(e) => "block device: "@ + e.text(),
            Error::NotSquashfs => "not a SquashFS image (magic mismatch at byte 0)"@,
            Error::BadSuperblock(s) => "malformed superblock: "@ + s@,
            Error::BadMetadata(s) => "malformed metadata block: "@ + s@,
            Error::BadInode(s) => "malformed inode: "@ + s@,
            Error::BadDirent(s) => "malformed directory: "@ + s@,
            Error::UnsupportedCompression(id) => {
                "unsupported SquashFS compressor id "@ + decimal_text(id as nat)
            },
            Error::NotFound => "not found"@,
            Error::NotADirectory => "not a directory"@,
            Error::NotExportable => "image has no export table"@,
            Error::OutOfRange => "read past end of file"@,
        }
    }

    /// This error in words.
    pub fn to_string(&self) -> (r: String)
        ensures
            r@ == self.text(),
    {
        match self {
            Error::Block(e) => {
                let mut s = String::from_str("block device: ");
                s.append(e.to_string().as_str());
                s
            },
            Error::NotSquashfs => String::from_str(
                "not a SquashFS image (magic mismatch at byte 0)",
            ),
            Error::BadSuperblock(t) => String::from_str("malformed superblock: ").concat(t),
            Error::BadMetadata(t) => String::from_str("malformed metadata block: ").concat(t),
            Error::BadInode(t) => String::from_str("malformed inode: ").concat(t),
            Error::BadDirent(t) => String::from_str("malformed directory: ").concat(t),
            Error::UnsupportedCompression(id) => {
                let mut s = String::from_str("unsupported SquashFS compressor id ");
                s.append(decimal(*id as u64).as_str());
                s
            },
            Error::NotFound => String::from_str("not found"),
            Error::NotADirectory => String::from_str("not a directory"),
            Error::NotExportable => String::from_str("image has no export table"),
            Error::OutOfRange => String::from_str("read past end of file"),
        }
    }
}

impl From<BlockError> for Error {
    fn from(e: BlockError) -> (r: Self) {
        Error::Block(e)
    }
}

impl vstd::std_specs::convert::FromSpecImpl<BlockError> for Error {
    open spec fn obeys_from_spec() -> bool {
        true
    }

    open spec fn from_spec(e: BlockError) -> Self {
        Error::Block(e)
    }
}

/// A result that holds bytes, by its view.
pub open spec fn bytes_of(r: Result<Vec<u8>>) -> Result<Seq<u8>> {
    match r {
        Ok(v) => Ok(v@),
        Err(e) => Err(e),
    }
}

/// `outcome(dependable, got, want)`: what an operation on an image returned,
/// against what the bytes of the image call for.
///
/// A device may fail to serve bytes it has, and then the operation reports
/// that failure. A dependable device never does, and then `got` is `want`.
pub open spec fn outcome<T>(dependable: bool, got: Result<T>, want: Result<T>) -> bool {
    got == want || (!dependable && got matches Err(Error::Block(_)))
}

/// Whether the image alone decides what an operation has done: its device is
/// dependable, or the operation did not fail on it.
pub open spec fn settled<T>(dependable: bool, got: Result<T>) -> bool {
    dependable || !(got matches Err(Error::Block(_)))
}

/// On a dependable device the image alone decides what an operation returns:
/// two runs of it agree, whatever the caches held before each.
pub proof fn dependable_outcomes_agree<T>(a: Result<T>, b: Result<T>, want: Result<T>)
    requires
        outcome(true, a, want),
        outcome(true, b, want),
    ensures
        a == b,
{
}

} // verus!
