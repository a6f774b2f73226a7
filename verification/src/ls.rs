//! What a directory lister prints.

use vstd::prelude::*;

use crate::device::BlockRead;
use crate::error::{Error, Result};
use crate::fs::Filesystem;
use crate::inode::{FileType, Inode, InodeData};
use crate::path::{name_len_at, SEPARATOR};

verus! {

/// The letter for a kind of file.
pub open spec fn letter(kind: FileType) -> u8 {
    match kind {
        FileType::Dir => 0x64,
        FileType::RegFile => 0x2D,
        FileType::Symlink => 0x6C,
        FileType::CharDev => 0x63,
        FileType::BlockDev => 0x62,
        FileType::Fifo => 0x70,
        FileType::Socket => 0x73,
        FileType::Unknown => 0x3F,
    }
}

/// The letter for a kind of file: one of `d`, `-`, `l`, `c`, `b`, `p`, `s`
/// and `?`.
pub fn kind_letter(kind: FileType) -> (r: u8)
    ensures
        r == letter(kind),
{
    match kind {
        FileType::Dir => 0x64,
        FileType::RegFile => 0x2D,
        FileType::Symlink => 0x6C,
        FileType::CharDev => 0x63,
        FileType::BlockDev => 0x62,
        FileType::Fifo => 0x70,
        FileType::Socket => 0x73,
        FileType::Unknown => 0x3F,
    }
}

/// `n` in decimal digits, without leading zeros.
pub open spec fn digits(n: nat) -> Seq<u8>
    decreases n,
{
    if n < 10 {
        seq![(0x30 + n) as u8]
    } else {
        digits(n / 10).push((0x30 + n % 10) as u8)
    }
}

/// Appends `n` in decimal digits.
pub fn push_digits(out: &mut Vec<u8>, n: u64)
    ensures
        final(out)@ == old(out)@ + digits(n as nat),
    decreases n,
{
    if n < 10 {
        out.push(0x30 + n as u8);
        assert(out@ =~= old(out)@ + digits(n as nat));
    } else {
        push_digits(out, n / 10);
        out.push(0x30 + (n % 10) as u8);
        assert(out@ =~= old(out)@ + digits(n as nat));
    }
}

/// The permission bits in four octal digits.
pub open spec fn octal(permissions: u16) -> Seq<u8> {
    let p = permissions % 0o10000;
    seq![
        (0x30 + p / 0o1000) as u8,
        (0x30 + (p / 0o100) % 8) as u8,
        (0x30 + (p / 0o10) % 8) as u8,
        (0x30 + p % 8) as u8,
    ]
}

/// `field` right-aligned in ten columns.
pub open spec fn aligned(field: Seq<u8>) -> Seq<u8> {
    if field.len() < 10 {
        Seq::new((10 - field.len()) as nat, |i: int| 0x20u8) + field
    } else {
        field
    }
}

/// The size of a file, or the major and minor number of a device.
pub open spec fn size_field(d: InodeData) -> Seq<u8> {
    if d.kind() == FileType::CharDev || d.kind() == FileType::BlockDev {
        digits(((d.rdev >> 8) & 0xFFF) as nat) + seq![0x2Cu8, 0x20] + digits(
            ((d.rdev & 0xFF) | ((d.rdev >> 12) & 0xF_FF00)) as nat,
        )
    } else {
        digits(d.file_size as nat)
    }
}

/// The line for an entry: its kind and permissions, its size or device
/// number, its name and, for a symlink, its target.
pub open spec fn line(name: Seq<u8>, d: InodeData) -> Seq<u8> {
    seq![letter(d.kind())] + octal(d.permissions) + seq![0x20u8] + aligned(size_field(d))
        + seq![0x20u8] + name + (if d.kind() == FileType::Symlink {
        seq![0x20u8, 0x2D, 0x3E, 0x20] + d.symlink_target
    } else {
        Seq::empty()
    })
}

/// The line for an entry.
pub fn entry_line(name: &[u8], inode: &Inode) -> (r: Vec<u8>)
    ensures
        r@ == line(name@, inode@),
{
    let kind: FileType = inode.file_type();
    let mut out: Vec<u8> = Vec::new();
    out.push(kind_letter(kind));
    let p: u16 = inode.permissions % 0o10000;
    out.push(0x30 + (p / 0o1000) as u8);
    out.push(0x30 + ((p / 0o100) % 8) as u8);
    out.push(0x30 + ((p / 0o10) % 8) as u8);
    out.push(0x30 + (p % 8) as u8);
    out.push(0x20);
    let ghost head = seq![letter(kind)] + octal(inode.permissions) + seq![0x20u8];
    assert(out@ =~= head);

    let mut size: Vec<u8> = Vec::new();
    if kind == FileType::CharDev || kind == FileType::BlockDev {
        push_digits(&mut size, inode.rdev_major() as u64);
        size.push(0x2C);
        size.push(0x20);
        push_digits(&mut size, inode.rdev_minor() as u64);
        assert(size@ =~= size_field(inode@));
    } else {
        push_digits(&mut size, inode.file_size);
        assert(size@ =~= size_field(inode@));
    }
    let len: usize = size.len();
    let mut pad: usize = len;
    while pad < 10
        invariant
            len <= pad,
            pad <= 10 || pad == len,
            len == size@.len(),
            out@ == head + Seq::new((pad - len) as nat, |i: int| 0x20u8),
        decreases 10 - pad,
    {
        out.push(0x20);
        pad = pad + 1;
        assert(out@ =~= head + Seq::new((pad - len) as nat, |i: int| 0x20u8));
    }
    out.extend_from_slice(size.as_slice());
    assert(out@ =~= head + aligned(size@));
    out.push(0x20);
    out.extend_from_slice(name);
    assert(out@ =~= head + aligned(size@) + seq![0x20u8] + name@);
    if kind == FileType::Symlink {
        out.push(0x20);
        out.push(0x2D);
        out.push(0x3E);
        out.push(0x20);
        out.extend_from_slice(inode.symlink_target.as_slice());
    }
    assert(out@ =~= line(name@, inode@));
    out
}

/// The last component of `path`, or `/` where it has none.
pub fn basename(path: &[u8]) -> (r: Vec<u8>)
    ensures
        r@ == crate::path::last_name(path@),
{
    let mut out: Vec<u8> = Vec::new();
    out.push(SEPARATOR);
    let mut at: usize = 0;
    assert(out@ =~= seq![SEPARATOR]);
    assert(path@.skip(0) =~= path@);
    while at < path.len()
        invariant
            at <= path.len(),
            ({
                let rest = crate::path::components(path@.skip(at as int));
                crate::path::last_name(path@) == (if rest.len() == 0 {
                    out@
                } else {
                    rest.last()
                })
            }),
        decreases path.len() - at,
    {
        let ghost here = path@.skip(at as int);
        if path[at] == SEPARATOR {
            assert(here.drop_first() =~= path@.skip(at + 1));
            at = at + 1;
            continue;
        }
        let n: usize = name_len_at(path, at);
        proof {
            crate::path::lemma_name_len(here);
            assert(here.take(n as int) =~= path@.subrange(at as int, at + n));
            assert(here.skip(n as int) =~= path@.skip(at + n));
        }
        let mut name: Vec<u8> = Vec::new();
        name.extend_from_slice(&path[at..at + n]);
        assert(name@ =~= here.take(n as int));
        out = name;
        at = at + n;
    }
    assert(crate::path::components(path@.skip(at as int)) =~= Seq::empty());
    out
}

/// The path of the entry `name` in the directory at `path`.
pub open spec fn joined(path: Seq<u8>, name: Seq<u8>) -> Seq<u8> {
    if path == seq![SEPARATOR] {
        path + name
    } else {
        path.push(SEPARATOR) + name
    }
}

/// The path of the entry `name` in the directory at `path`.
pub fn child_path(path: &[u8], name: &[u8]) -> (r: Vec<u8>)
    ensures
        r@ == joined(path@, name@),
{
    let mut out: Vec<u8> = Vec::new();
    out.extend_from_slice(path);
    assert(out@ =~= path@);
    if path.len() != 1 || path[0] != SEPARATOR {
        assert(path@ != seq![SEPARATOR]);
        out.push(SEPARATOR);
    } else {
        assert(path@ =~= seq![SEPARATOR]);
    }
    out.extend_from_slice(name);
    assert(out@ =~= joined(path@, name@));
    out
}

// ---- entries of a listing ----

/// The line for the entry `name` whose inode `inode_ref` names.
pub fn show_entry<D: BlockRead>(fs: &mut Filesystem<D>, name: &[u8], inode_ref: u64) -> (r: Result<
    Vec<u8>,
>)
    requires
        old(fs).wf(),
    ensures
        final(fs).same_but_metadata(&*old(fs)),
        crate::error::settled(old(fs).dependable(), r) ==> final(fs).meta_cache_state()
            == crate::inode::inode_cache(
            old(fs).image(),
            old(fs)@.sb,
            inode_ref,
            old(fs).meta_cache_state(),
        ),
        crate::error::outcome(
            old(fs).dependable(),
            crate::error::bytes_of(r),
            match crate::inode::inode_at(old(fs).image(), old(fs)@.sb, inode_ref) {
                Err(e) => Err(e),
                Ok(d) => Ok(line(name@, d)),
            },
        ),
{
    let inode: Inode = fs.read_inode(inode_ref)?;
    Ok(entry_line(name, &inode))
}

/// A name in a tree, two columns further in for each level, with a separator
/// behind that of a directory.
pub open spec fn branch(name: Seq<u8>, depth: nat, is_dir: bool) -> Seq<u8> {
    Seq::new(2 * depth, |i: int| 0x20u8) + name + (if is_dir {
        seq![SEPARATOR]
    } else {
        Seq::empty()
    })
}

/// The line for a name in a tree.
pub fn tree_line(name: &[u8], depth: usize, is_dir: bool) -> (r: Vec<u8>)
    ensures
        r@ == branch(name@, depth as nat, is_dir),
{
    let mut out: Vec<u8> = Vec::new();
    let mut i: usize = 0;
    assert(out@ =~= Seq::new(0, |i: int| 0x20u8));
    while i < depth
        invariant
            i <= depth,
            out@ == Seq::new((2 * i) as nat, |i: int| 0x20u8),
        decreases depth - i,
    {
        out.push(0x20);
        out.push(0x20);
        i = i + 1;
        assert(out@ =~= Seq::new((2 * i) as nat, |i: int| 0x20u8));
    }
    out.extend_from_slice(name);
    if is_dir {
        out.push(SEPARATOR);
    }
    assert(out@ =~= branch(name@, depth as nat, is_dir));
    out
}

/// What a tree shows of the entry `name` of the directory at `path`: its
/// line and, for a directory, the path at which to go on.
pub open spec fn tree_of(path: Seq<u8>, name: Seq<u8>, d: InodeData, depth: nat) -> (
    Seq<u8>,
    Option<Seq<u8>>,
) {
    if d.kind() == FileType::Dir {
        (branch(name, depth, true), Some(joined(path, name)))
    } else {
        (branch(name, depth, false), None)
    }
}

/// What a tree shows of the entry `name`, whose inode `inode_ref` names, of
/// the directory at `path`: its line and, for a directory, the path at which
/// to go on one level deeper.
pub fn tree_entry<D: BlockRead>(
    fs: &mut Filesystem<D>,
    path: &[u8],
    name: &[u8],
    inode_ref: u64,
    depth: usize,
) -> (r: Result<(Vec<u8>, Option<Vec<u8>>)>)
    requires
        old(fs).wf(),
    ensures
        final(fs).same_but_metadata(&*old(fs)),
        crate::error::settled(old(fs).dependable(), r) ==> final(fs).meta_cache_state()
            == crate::inode::inode_cache(
            old(fs).image(),
            old(fs)@.sb,
            inode_ref,
            old(fs).meta_cache_state(),
        ),
        ({
            let want = crate::inode::inode_at(old(fs).image(), old(fs)@.sb, inode_ref);
            match r {
                Ok((shown, next)) => {
                    &&& want is Ok
                    &&& tree_of(path@, name@, want->Ok_0, depth as nat) == (
                        shown@,
                        match next {
                            Some(p) => Some(p@),
                            None => None,
                        },
                    )
                },
                Err(e) => want == Err::<InodeData, Error>(e) || (!old(fs).dependable()
                    && e is Block),
            }
        }),
{
    let inode: Inode = fs.read_inode(inode_ref)?;
    if inode.is_dir() {
        Ok((tree_line(name, depth, true), Some(child_path(path, name))))
    } else {
        Ok((tree_line(name, depth, false), None))
    }
}

// ---- laws ----

/// The path of an entry leads through its directory to its name.
pub proof fn joined_path_ends_in_the_name(path: Seq<u8>, name: Seq<u8>)
    requires
        name.len() > 0,
        forall|k: int| 0 <= k < name.len() ==> #[trigger] name[k] != SEPARATOR,
    ensures
        crate::path::components(joined(path, name)) == crate::path::components(path).push(name),
{
    lemma_components_of_name(name);
    if path == seq![SEPARATOR] {
        assert((path + name).drop_first() =~= name);
        assert(path.drop_first() =~= Seq::empty());
        assert(crate::path::components(path.drop_first()) =~= Seq::<Seq<u8>>::empty());
        assert(crate::path::components(path) =~= Seq::<Seq<u8>>::empty());
        assert(crate::path::components(path + name) == crate::path::components(name));
        assert(crate::path::components(path).push(name) =~= seq![name]);
    } else {
        lemma_components_behind(path, name);
    }
}

proof fn lemma_components_of_name(name: Seq<u8>)
    requires
        name.len() > 0,
        forall|k: int| 0 <= k < name.len() ==> #[trigger] name[k] != SEPARATOR,
    ensures
        crate::path::components(name) == seq![name],
{
    crate::path::lemma_name_len(name);
    let n = crate::path::name_len(name) as int;
    assert(n == name.len());
    assert(name.take(n) =~= name);
    assert(name.skip(n) =~= Seq::empty());
    assert(crate::path::components(name.skip(n)) =~= Seq::<Seq<u8>>::empty());
    assert(seq![name] + Seq::<Seq<u8>>::empty() =~= seq![name]);
}

proof fn lemma_components_behind(path: Seq<u8>, name: Seq<u8>)
    requires
        name.len() > 0,
        forall|k: int| 0 <= k < name.len() ==> #[trigger] name[k] != SEPARATOR,
    ensures
        crate::path::components(path.push(SEPARATOR) + name) == crate::path::components(path).push(
            name,
        ),
    decreases path.len(),
{
    lemma_components_of_name(name);
    let whole = path.push(SEPARATOR) + name;
    if path.len() == 0 {
        assert(whole.drop_first() =~= name);
        assert(crate::path::components(path).push(name) =~= seq![name]);
    } else if path[0] == SEPARATOR {
        assert(whole.drop_first() =~= path.drop_first().push(SEPARATOR) + name);
        lemma_components_behind(path.drop_first(), name);
    } else {
        crate::path::lemma_name_len(path);
        crate::path::lemma_name_len(whole);
        let n = crate::path::name_len(path) as int;
        let m = crate::path::name_len(whole) as int;
        if m < n {
            assert(whole[m] == path[m]);
        }
        if m > n {
            assert(whole[n] == SEPARATOR);
        }
        assert(whole.take(n) =~= path.take(n));
        assert(whole.skip(n) =~= path.skip(n).push(SEPARATOR) + name);
        lemma_components_behind(path.skip(n), name);
        assert(seq![path.take(n)] + crate::path::components(path.skip(n)).push(name) =~= (seq![
            path.take(n),
        ] + crate::path::components(path.skip(n))).push(name));
    }
}

/// The number that digits stand for in the given base.
pub open spec fn value_of(digits: Seq<u8>, base: nat) -> int
    decreases digits.len(),
{
    if digits.len() == 0 {
        0
    } else {
        base * value_of(digits.drop_last(), base) + (digits.last() - 0x30)
    }
}

/// A number in digits stands for itself, and starts with no zero but its own.
pub proof fn digits_stand_for_their_number(n: nat)
    ensures
        value_of(digits(n), 10) == n,
        digits(n).len() > 0,
        forall|k: int| 0 <= k < digits(n).len() ==> 0x30 <= #[trigger] digits(n)[k] <= 0x39,
        digits(n).len() > 1 ==> digits(n)[0] != 0x30,
    decreases n,
{
    if n < 10 {
        assert(digits(n).drop_last() =~= Seq::empty());
        assert(value_of(digits(n).drop_last(), 10) == 0);
    } else {
        digits_stand_for_their_number(n / 10);
        assert(digits(n).drop_last() =~= digits(n / 10));
        if digits(n / 10).len() == 1 {
            assert(digits(n / 10).drop_last() =~= Seq::empty());
            assert(value_of(digits(n / 10).drop_last(), 10) == 0);
        }
    }
}

/// The permissions are shown in four octal digits: all twelve bits.
pub proof fn permissions_are_shown_in_octal(permissions: u16)
    ensures
        octal(permissions).len() == 4,
        value_of(octal(permissions), 8) == permissions % 0o10000,
        forall|k: int| 0 <= k < 4 ==> 0x30 <= #[trigger] octal(permissions)[k] <= 0x37,
{
    let p = (permissions % 0o10000) as int;
    lemma_octal(p);
    let (a, b, c, d) = (p / 512, (p / 64) % 8, (p / 8) % 8, p % 8);
    let o = octal(permissions);
    assert(o =~= seq![(0x30 + a) as u8, (0x30 + b) as u8, (0x30 + c) as u8, (0x30 + d) as u8]);
    let (o3, o2, o1) = (o.take(3), o.take(2), o.take(1));
    assert(o.drop_last() =~= o3 && o3.drop_last() =~= o2 && o2.drop_last() =~= o1);
    assert(o1.drop_last() =~= Seq::empty());
    assert(value_of(o1.drop_last(), 8) == 0);
    assert(value_of(o1, 8) == a);
    assert(value_of(o2, 8) == 8 * a + b);
    assert(value_of(o3, 8) == 8 * (8 * a + b) + c);
}

proof fn lemma_octal(p: int)
    requires
        0 <= p < 0o10000,
    ensures
        0 <= p / 512 < 8,
        p == 8 * (8 * (8 * (p / 512) + (p / 64) % 8) + (p / 8) % 8) + p % 8,
{
}

/// A field is shown at the right of ten columns, or of as many as it takes.
pub proof fn fields_are_shown_at_the_right(field: Seq<u8>)
    ensures
        field.len() <= 10 ==> aligned(field).len() == 10,
        field.len() >= 10 ==> aligned(field) == field,
        aligned(field).skip(aligned(field).len() - field.len()) == field,
        forall|k: int|
            0 <= k < aligned(field).len() - field.len() ==> #[trigger] aligned(field)[k] == 0x20,
{
    assert(aligned(field).skip(aligned(field).len() - field.len()) =~= field);
}

/// A device is shown by the numbers it was made with, major and minor; any
/// other file by its size.
pub proof fn devices_are_shown_by_their_numbers(d: InodeData, major: u32, minor: u32)
    requires
        major < 0x1000,
        minor < 0x10_0000,
        d.rdev == minor % 0x100 + 0x100 * major + 0x10_0000 * (minor / 0x100),
    ensures
        d.inode_type == 4 || d.inode_type == 5 || d.inode_type == 11 || d.inode_type == 12
            ==> size_field(d) == digits(major as nat) + seq![0x2Cu8, 0x20] + digits(minor as nat),
        !(d.inode_type == 4 || d.inode_type == 5 || d.inode_type == 11 || d.inode_type == 12)
            ==> size_field(d) == digits(d.file_size as nat),
{
    let rdev = d.rdev;
    assert((rdev >> 8) & 0xFFF == major && (rdev & 0xFF) | ((rdev >> 12) & 0xF_FF00) == minor)
        by (bit_vector)
        requires
            major < 0x1000,
            minor < 0x10_0000,
            rdev == minor % 0x100 + 0x100 * major + 0x10_0000 * (minor / 0x100),
    ;
}

/// The line of an entry shows, from left to right, the letter of its kind, its
/// permissions, its size or device number, its name and, behind an arrow, the
/// target of a symlink.
pub proof fn lines_show_kind_mode_size_and_name(name: Seq<u8>, d: InodeData)
    ensures
        ({
            let l = line(name, d);
            let field = aligned(size_field(d));
            let at = 7 + field.len() as int;
            &&& l[0] == letter(d.kind())
            &&& l.subrange(1, 5) == octal(d.permissions)
            &&& l[5] == 0x20
            &&& l.subrange(6, 6 + field.len() as int) == field
            &&& l[6 + field.len() as int] == 0x20
            &&& l.subrange(at, at + name.len()) == name
            &&& d.inode_type == 3 || d.inode_type == 10 ==> l.skip(at + name.len()) == seq![
                0x20u8,
                0x2D,
                0x3E,
                0x20,
            ] + d.symlink_target
            &&& d.inode_type != 3 && d.inode_type != 10 ==> l.len() == at + name.len()
        }),
{
    let l = line(name, d);
    let field = aligned(size_field(d));
    let at = 7 + field.len() as int;
    assert(l.subrange(1, 5) =~= octal(d.permissions));
    assert(l.subrange(6, 6 + field.len() as int) =~= field);
    assert(l.subrange(at, at + name.len()) =~= name);
    if d.kind() == FileType::Symlink {
        assert(l.skip(at + name.len()) =~= seq![0x20u8, 0x2D, 0x3E, 0x20] + d.symlink_target);
    }
}

/// Every kind of file has its own letter: `d`, `-`, `l`, `b`, `c`, `p` and
/// `s` for the types in their order, and `?` for what is none.
pub proof fn kinds_have_their_letters(t: u16)
    ensures
        ({
            let c = letter(crate::inode::type_of(t)) as char;
            &&& t == 1 || t == 8 ==> c == 'd'
            &&& t == 2 || t == 9 ==> c == '-'
            &&& t == 3 || t == 10 ==> c == 'l'
            &&& t == 4 || t == 11 ==> c == 'b'
            &&& t == 5 || t == 12 ==> c == 'c'
            &&& t == 6 || t == 13 ==> c == 'p'
            &&& t == 7 || t == 14 ==> c == 's'
            &&& t == 0 || t > 14 ==> c == '?'
        }),
{
}

/// A tree shows each entry two columns further in for each level, a directory
/// with a separator behind it, and goes on in directories alone, at the path
/// that leads to them.
pub proof fn trees_go_on_in_directories(path: Seq<u8>, name: Seq<u8>, d: InodeData, depth: nat)
    ensures
        ({
            let (shown, next) = tree_of(path, name, d, depth);
            let is_dir = d.inode_type == 1 || d.inode_type == 8;
            &&& shown.len() == 2 * depth + name.len() + (if is_dir {
                1int
            } else {
                0int
            })
            &&& forall|k: int| 0 <= k < 2 * depth ==> #[trigger] shown[k] == 0x20
            &&& shown.subrange((2 * depth) as int, (2 * depth + name.len()) as int) == name
            &&& is_dir ==> shown.last() == 0x2F && next == Some(joined(path, name))
            &&& !is_dir ==> next is None
        }),
{
    let (shown, next) = tree_of(path, name, d, depth);
    assert(shown.subrange((2 * depth) as int, (2 * depth + name.len()) as int) =~= name);
}

} // verus!
