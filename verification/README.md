# grenad

Files of sorted key-value entries, with a writer, a reader, a merger and an external
sorter, written and proved in Verus.

- `src/` is the library, with its contracts and proofs.
  - `format`, `varint`, `endian`, `compression`: the bytes of a file and what they mean.
  - `writer`, `reader`: writing entries into blocks and reading them back.
  - `order`, `merge`, `merger`: the order of keys, and merging several files key by key.
  - `entries`, `sorter`: entries in one buffer of memory, and sorting with chunks.
  - `runs`, `made`: what merging makes of sorted runs, and which entries they stand for.
  - `io`: where bytes come from and go to.
- `app/` connects the library to `std::io` and to temporary files.
- `tests/` runs the library.

## A file

A file is one byte for the compression (`0` none, `1` Snappy), then blocks. A block is
the length of its stored bytes, in eight bytes, most significant first, and the stored
bytes. These are the entries of the block, one after the other, compressed. An entry is
the length of its key and the length of its value, each as a varint, then the key and
the value.

## The empty key

A merge treats an empty key as no key yet: where there are other keys, entries with the
empty key are not in what it yields, and where there are none, only the last of its
values is. The contracts of the merger and the sorter say so.

## What is taken on trust

Reading and writing 64-bit integers (`byteorder`), laying out the bounds of the buffer
(`bytemuck`), and compressing blocks (`snap`) are calls into other crates, each behind a
small function whose contract is believed. What is proved of a source, a destination or
a chunk outside of this library holds as far as that one keeps the contracts of the
traits in `io`.
