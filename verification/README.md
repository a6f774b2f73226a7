# fs_squashfs

A read-only reader for SquashFS 4.0 images, written in Verus: what each
function returns is stated over the bytes of the image, and proved.

SquashFS is compressed and never modified in place, so there is no write path.
Images are read over any `BlockRead` device.

| | |
|---|---|
| Compressors | gzip, lzma (legacy), lzo, xz (with BCJ filters), lz4, zstd |
| Inodes | basic and extended, every file type |
| Lookup tables | id (uid/gid), fragment, xattr, export |
| Resolve an inode number | `Filesystem::read_inode_by_number`, through the export table |
| Extended attributes | `Filesystem::list_xattrs` and `Filesystem::get_xattr` |

## Crate layout

- `superblock` : the 96-byte superblock, parsed and checked against its device
- `decompress` : which codec decodes a block
- `xz` : the `.xz` container, for streams with BCJ filters
- `bcj` : the branch filters themselves
- `bcj_encode` : the filters in the other direction, and the proof that `bcj`
  undoes them
- `lzo1x` : the LZO1X decoder
- `metablock` : metadata blocks, and a cursor over a run of them
- `table` : the id, fragment and export tables
- `xattr` : the table of attribute sets, and the sets
- `inode` : inodes of every shape
- `dir` : directory listings
- `data` : the blocks and the bytes of files
- `path` : paths, cut into names
- `fs` : the mounted image
- `cache` : decompressed blocks, kept by least recent use
- `capi` : what the C interface hands out
- `ls` : what the lister prints
- `device` : the device an image is read from
- `error` : errors, their texts and their errnos
- `bytes` : little-endian numbers

`app/` holds the `lssquashfs` lister and the C entry points: files, pointers and
threads. `tests/` reads images that the tests build in memory.

## What is proved

A contract says what an operation returns as a function of the image alone:
caches change how often a block is decoded and nothing else. What each operation
looks up in them and puts in is stated beside its result. A device may fail
to serve bytes that it has. Such a failure is reported as a block error, and on
a device that never fails so (`dependable`), or where nothing has to be read, the
result is exactly what the image calls for.

Decoding is trusted where another crate does it: the results of `flate2`,
`lzma-rs`, `lz4_flex` and `ruzstd` have names, and the contracts speak of those.
The least-recently-used order of the caches is that of the `lru` crate.
