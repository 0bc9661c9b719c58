//! The bytes of a file, and what reading them yields.
//!
//! A file is one byte for the compression and then blocks. A block is the length
//! of its stored bytes, in eight bytes, and the stored bytes, which are its
//! entries one after the other, compressed. An entry is the length of its key, the
//! length of its value, the key and the value.

use crate::compression::{compressed, compression_of, decompressed, tag_round_trip, CompressionType};
use crate::endian::{
    be_bytes, be_bytes_of_eight, be_round_trip, be_value, be_value_of_eight, span_of_u64,
};
use crate::seqs::{concat, concat_flattens, concat_front, concat_push};
use crate::varint::{varint, varint_decoded, varint_decoded_len, varint_round_trip};
use vstd::prelude::*;

verus! {

/// A key and its value.
pub type KeyVal = (Seq<u8>, Seq<u8>);

/// The bytes of an entry.
pub open spec fn encoded_entry(entry: KeyVal) -> Seq<u8> {
    varint(entry.0.len()) + varint(entry.1.len()) + entry.0 + entry.1
}

/// The bytes of entries one after the other.
pub open spec fn encoded(entries: Seq<KeyVal>) -> Seq<u8> {
    concat(entries.map_values(|entry: KeyVal| encoded_entry(entry)))
}

/// Whether an entry can be written: its lengths are numbers of 32 bits.
pub open spec fn encodable(entry: KeyVal) -> bool {
    entry.0.len() <= u32::MAX && entry.1.len() <= u32::MAX
}

/// Where the key of an entry begins in a block, where its value begins, and where
/// the entry ends.
pub struct EntryBounds {
    pub key: int,
    pub val: int,
    pub end: int,
}

/// The entry that begins at an offset in a block, if there is one.
pub open spec fn entry_at(block: Seq<u8>, offset: int) -> Option<EntryBounds> {
    let rest = block.skip(offset);
    match varint_decoded(rest) {
        None => None,
        Some((key_len, n)) => match varint_decoded(rest.skip(n as int)) {
            None => None,
            Some((val_len, m)) => {
                let key = offset + n + m;
                if key + key_len + val_len <= block.len() {
                    Some(EntryBounds { key, val: key + key_len, end: key + key_len + val_len })
                } else {
                    None
                }
            },
        },
    }
}

/// An entry lies within its block and takes up at least two bytes.
pub proof fn entry_at_bounds(block: Seq<u8>, offset: int)
    requires
        0 <= offset <= block.len(),
    ensures
        entry_at(block, offset) matches Some(b) ==> offset + 2 <= b.key <= b.val <= b.end
            <= block.len(),
{
    let rest = block.skip(offset);
    varint_decoded_len(rest);
    match varint_decoded(rest) {
        None => {},
        Some((key_len, n)) => {
            varint_decoded_len(rest.skip(n as int));
        },
    }
}

/// An entry that was written at an offset is read back from there.
pub proof fn entry_round_trip(before: Seq<u8>, entry: KeyVal, after: Seq<u8>)
    requires
        encodable(entry),
    ensures
        ({
            let block = before + encoded_entry(entry) + after;
            entry_at(block, before.len() as int) matches Some(b) && {
                &&& block.subrange(b.key, b.val) == entry.0
                &&& block.subrange(b.val, b.end) == entry.1
                &&& b.end == before.len() + encoded_entry(entry).len()
            }
        }),
        encoded_entry(entry).len() >= 2,
{
    let block = before + encoded_entry(entry) + after;
    let rest = block.skip(before.len() as int);
    let (key, val) = entry;
    let n = varint(key.len());
    let m = varint(val.len());
    varint_round_trip(key.len(), m + key + val + after);
    assert(rest =~= n + (m + key + val + after));
    varint_round_trip(val.len(), key + val + after);
    assert(rest.skip(n.len() as int) =~= m + (key + val + after));
    let k = (before.len() + n.len() + m.len()) as int;
    assert(block.subrange(k, (k + key.len()) as int) =~= key);
    assert(block.subrange((k + key.len()) as int, (k + key.len() + val.len()) as int) =~= val);
}

/// The block that a reader is in, and how far into it the reader is.
#[verifier::ext_equal]
pub struct BlockView {
    pub bytes: Seq<u8>,
    pub offset: int,
}

/// What a reader holds and what it has still to read.
#[verifier::ext_equal]
pub struct ReaderView {
    pub compression: CompressionType,
    pub block: Option<BlockView>,
    pub pending: Seq<u8>,
}

impl ReaderView {
    /// How many bytes of the current block are left.
    pub open spec fn unread(self) -> nat {
        match self.block {
            Some(b) if 0 <= b.offset <= b.bytes.len() => (b.bytes.len() - b.offset) as nat,
            _ => 0,
        }
    }

    /// Whether the offset lies in the block.
    pub open spec fn sound(self) -> bool {
        self.block matches Some(b) ==> 0 <= b.offset <= b.bytes.len()
    }
}

/// What comes of reading a block.
pub enum Load {
    /// There is no block left.
    End,
    /// The bytes run out within the block, which was to have so many.
    Truncated { len: usize },
    /// The stored bytes do not decompress.
    Corrupt { stored: Seq<u8>, rest: Seq<u8> },
    /// The block, and the bytes after it.
    Block { bytes: Seq<u8>, rest: Seq<u8> },
}

/// Reads the next block off the given bytes.
pub open spec fn load(compression: CompressionType, pending: Seq<u8>) -> Load {
    if pending.len() < 8 {
        Load::End
    } else {
        let len = be_value(pending.take(8)) as u64 as usize;
        if pending.len() - 8 < len {
            Load::Truncated { len }
        } else {
            let stored = pending.subrange(8, 8 + len as int);
            let rest = pending.skip(8 + len as int);
            match decompressed(compression, stored) {
                Some(bytes) => Load::Block { bytes, rest },
                None => Load::Corrupt { stored, rest },
            }
        }
    }
}

/// The bytes of a block with the length of another that could not be read: cut off, or
/// followed by zeros. A length that no memory can have leaves none of them.
pub open spec fn resized(bytes: Seq<u8>, len: nat) -> Seq<u8> {
    if len > isize::MAX {
        Seq::empty()
    } else if len <= bytes.len() {
        bytes.take(len as int)
    } else {
        bytes + Seq::new((len - bytes.len()) as nat, |i: int| 0u8)
    }
}

/// What comes of asking a reader for its next entry.
pub enum Step {
    /// An entry, and the reader after it.
    Entry { entry: KeyVal, next: ReaderView },
    /// There is nothing left to read.
    End,
    /// The next block is empty, which yields no entry either.
    EmptyBlock { next: ReaderView },
    /// The bytes run out within a block, and the reader is left at the start of another.
    Truncated { block: BlockView },
    /// A block does not decompress.
    Corrupt { next: ReaderView },
    /// The bytes of a block spell no entry.
    Malformed { next: ReaderView },
}

/// The entry at the offset of the current block.
pub open spec fn entry_step(v: ReaderView) -> Step
    recommends
        v.block is Some,
{
    let b = v.block->0;
    match entry_at(b.bytes, b.offset) {
        Some(at) => Step::Entry {
            entry: (b.bytes.subrange(at.key, at.val), b.bytes.subrange(at.val, at.end)),
            next: ReaderView { block: Some(BlockView { bytes: b.bytes, offset: at.end }), ..v },
        },
        None => Step::Malformed { next: v },
    }
}

/// What a reader does when it is asked for its next entry.
pub open spec fn step(v: ReaderView) -> Step {
    match v.block {
        None => Step::End,
        Some(b) => if b.offset != b.bytes.len() {
            entry_step(v)
        } else {
            match load(v.compression, v.pending) {
                Load::End => Step::End,
                Load::Truncated { len } => Step::Truncated {
                    block: BlockView { bytes: resized(b.bytes, len as nat), offset: 0 },
                },
                Load::Corrupt { stored, rest } => Step::Corrupt {
                    next: ReaderView {
                        block: Some(BlockView { bytes: stored, offset: 0 }),
                        pending: rest,
                        ..v
                    },
                },
                Load::Block { bytes, rest } => {
                    let next = ReaderView {
                        block: Some(BlockView { bytes, offset: 0 }),
                        pending: rest,
                        ..v
                    };
                    if bytes.len() == 0 {
                        Step::EmptyBlock { next }
                    } else {
                        entry_step(next)
                    }
                },
            }
        },
    }
}

/// Reading an entry leaves less to read.
pub proof fn step_progress(v: ReaderView)
    requires
        v.sound(),
    ensures
        step(v) matches Step::Entry { entry, next } ==> {
            &&& next.sound()
            &&& next.pending.len() <= v.pending.len()
            &&& next.pending.len() < v.pending.len() || next.unread() < v.unread()
        },
{
    if let Some(b) = v.block {
        if b.offset != b.bytes.len() {
            entry_at_bounds(b.bytes, b.offset);
        } else {
            match load(v.compression, v.pending) {
                Load::Block { bytes, rest } => {
                    entry_at_bounds(bytes, 0);
                },
                _ => {},
            }
        }
    }
}

/// How the entries of a reader come to an end.
pub enum StreamEnd {
    End,
    Truncated,
    Corrupt,
    Malformed,
}

/// All that a reader yields: its entries, and what comes after the last of them.
#[verifier::ext_equal]
pub struct Stream {
    pub entries: Seq<KeyVal>,
    pub end: StreamEnd,
}

impl Stream {
    /// The stream with an entry before it.
    pub open spec fn after(self, entry: KeyVal) -> Stream {
        Stream { entries: seq![entry] + self.entries, ..self }
    }
}

/// All that a reader yields until it first has no entry to give.
pub open spec fn stream(v: ReaderView) -> Stream
    decreases v.pending.len(), v.unread(),
    when v.sound()
    via stream_decreases
{
    match step(v) {
        Step::Entry { entry, next } => stream(next).after(entry),
        Step::End => Stream { entries: Seq::empty(), end: StreamEnd::End },
        Step::EmptyBlock { .. } => Stream { entries: Seq::empty(), end: StreamEnd::End },
        Step::Truncated { .. } => Stream { entries: Seq::empty(), end: StreamEnd::Truncated },
        Step::Corrupt { .. } => Stream { entries: Seq::empty(), end: StreamEnd::Corrupt },
        Step::Malformed { .. } => Stream { entries: Seq::empty(), end: StreamEnd::Malformed },
    }
}

#[via_fn]
proof fn stream_decreases(v: ReaderView) {
    step_progress(v);
}

/// A block as it stands in a file.
pub open spec fn frame(compression: CompressionType, block: Seq<u8>) -> Seq<u8> {
    let stored = compressed(compression, block);
    be_bytes(stored.len(), 8) + stored
}

/// Whether a block can stand in a file: it decompresses again, and its stored
/// length is one that a machine can address.
pub open spec fn storable(compression: CompressionType, block: Seq<u8>) -> bool {
    let stored = compressed(compression, block);
    decompressed(compression, stored) == Some(block) && stored.len() <= usize::MAX
}

/// Whether lists of entries can be the blocks of a file.
pub open spec fn valid_blocks(compression: CompressionType, blocks: Seq<Seq<KeyVal>>) -> bool {
    forall|i: int| #![trigger blocks[i]]
        0 <= i < blocks.len() ==> valid_block(compression, blocks[i])
}

/// Whether a list of entries can be a block of a file.
pub open spec fn valid_block(compression: CompressionType, block: Seq<KeyVal>) -> bool {
    &&& block.len() > 0
    &&& storable(compression, encoded(block))
    &&& forall|i: int| 0 <= i < block.len() ==> encodable(#[trigger] block[i])
}

/// The blocks as they stand in a file.
pub open spec fn frames(compression: CompressionType, blocks: Seq<Seq<KeyVal>>) -> Seq<u8> {
    concat(blocks.map_values(|block: Seq<KeyVal>| frame(compression, encoded(block))))
}

/// The bytes of a file.
pub open spec fn file(compression: CompressionType, blocks: Seq<Seq<KeyVal>>) -> Seq<u8> {
    seq![compression.tag()] + frames(compression, blocks)
}

/// One more entry lengthens the encoding by the bytes of that entry.
pub proof fn encoded_push(entries: Seq<KeyVal>, entry: KeyVal)
    ensures
        encoded(entries.push(entry)) == encoded(entries) + encoded_entry(entry),
{
    let f = |entry: KeyVal| encoded_entry(entry);
    concat_push(entries.map_values(f), encoded_entry(entry));
    assert(entries.push(entry).map_values(f) =~= entries.map_values(f).push(encoded_entry(entry)));
}

/// The encoding begins with the bytes of the first entry.
pub proof fn encoded_front(entries: Seq<KeyVal>)
    requires
        entries.len() > 0,
    ensures
        encoded(entries) == encoded_entry(entries.first()) + encoded(entries.drop_first()),
{
    let f = |entry: KeyVal| encoded_entry(entry);
    concat_front(entries.map_values(f));
    assert(entries.map_values(f).drop_first() =~= entries.drop_first().map_values(f));
}

/// One more block lengthens the file by the frame of that block.
pub proof fn frames_push(
    compression: CompressionType,
    blocks: Seq<Seq<KeyVal>>,
    block: Seq<KeyVal>,
)
    ensures
        frames(compression, blocks.push(block)) == frames(compression, blocks) + frame(
            compression,
            encoded(block),
        ),
{
    let f = |block: Seq<KeyVal>| frame(compression, encoded(block));
    concat_push(blocks.map_values(f), f(block));
    assert(blocks.push(block).map_values(f) =~= blocks.map_values(f).push(f(block)));
}

/// The frames begin with that of the first block.
pub proof fn frames_front(compression: CompressionType, blocks: Seq<Seq<KeyVal>>)
    requires
        blocks.len() > 0,
    ensures
        frames(compression, blocks) == frame(compression, encoded(blocks.first())) + frames(
            compression,
            blocks.drop_first(),
        ),
{
    let f = |block: Seq<KeyVal>| frame(compression, encoded(block));
    concat_front(blocks.map_values(f));
    assert(blocks.map_values(f).drop_first() =~= blocks.drop_first().map_values(f));
}

/// A frame is read back as the block that it was made from.
pub proof fn load_frame(compression: CompressionType, block: Seq<u8>, rest: Seq<u8>)
    requires
        storable(compression, block),
    ensures
        load(compression, frame(compression, block) + rest) == (Load::Block {
            bytes: block,
            rest,
        }),
{
    let stored = compressed(compression, block);
    let pending = frame(compression, block) + rest;
    span_of_u64();
    be_round_trip(stored.len(), 8);
    assert(pending.take(8) =~= be_bytes(stored.len(), 8));
    assert(pending.subrange(8, (8 + stored.len()) as int) =~= stored);
    assert(pending.skip((8 + stored.len()) as int) =~= rest);
}

/// A reader yields the entries that are left in its block, and then what it would
/// yield if they had been read.
pub proof fn stream_of_block(v: ReaderView, before: Seq<u8>, entries: Seq<KeyVal>)
    requires
        v.block == Some(
            BlockView { bytes: before + encoded(entries), offset: before.len() as int },
        ),
        forall|i: int| 0 <= i < entries.len() ==> encodable(#[trigger] entries[i]),
    ensures
        ({
            let bytes = before + encoded(entries);
            let tail = ReaderView {
                block: Some(BlockView { bytes, offset: bytes.len() as int }),
                ..v
            };
            stream(v) == (Stream {
                entries: entries + stream(tail).entries,
                end: stream(tail).end,
            })
        }),
    decreases entries.len(),
{
    let bytes = before + encoded(entries);
    let tail = ReaderView { block: Some(BlockView { bytes, offset: bytes.len() as int }), ..v };
    if entries.len() == 0 {
        assert(bytes =~= before);
        assert(entries + stream(tail).entries =~= stream(tail).entries);
    } else {
        let first = entries.first();
        let rest = entries.drop_first();
        encoded_front(entries);
        assert(bytes =~= before + encoded_entry(first) + encoded(rest));
        entry_round_trip(before, first, encoded(rest));
        let next = ReaderView {
            block: Some(
                BlockView { bytes, offset: (before.len() + encoded_entry(first).len()) as int },
            ),
            ..v
        };
        assert(step(v) == Step::Entry { entry: first, next });
        stream_of_block(next, before + encoded_entry(first), rest);
        assert(seq![first] + (rest + stream(tail).entries) =~= entries + stream(tail).entries);
    }
}

/// A reader that is through with its block yields the entries of the blocks that
/// follow, and ends where they do.
pub proof fn stream_of_frames(v: ReaderView, blocks: Seq<Seq<KeyVal>>)
    requires
        v.sound(),
        v.block is Some,
        v.unread() == 0,
        v.pending == frames(v.compression, blocks),
        valid_blocks(v.compression, blocks),
    ensures
        stream(v) == (Stream { entries: concat(blocks), end: StreamEnd::End }),
    decreases blocks.len(),
{
    if blocks.len() == 0 {
        assert(step(v) == Step::End);
        assert(stream(v).entries =~= concat(blocks));
    } else {
        let first = blocks.first();
        let rest = blocks.drop_first();
        assert(valid_block(v.compression, blocks[0]));
        assert forall|i: int| #![trigger rest[i]]
            0 <= i < rest.len() implies valid_block(v.compression, rest[i]) by {
            assert(rest[i] == blocks[i + 1]);
        }
        frames_front(v.compression, blocks);
        load_frame(v.compression, encoded(first), frames(v.compression, rest));
        let bytes = encoded(first);
        let opened = ReaderView {
            block: Some(BlockView { bytes, offset: 0 }),
            pending: frames(v.compression, rest),
            ..v
        };
        encoded_front(first);
        assert(encodable(first[0]));
        entry_round_trip(Seq::empty(), first[0], Seq::empty());
        assert(bytes.len() > 0);
        assert(step(v) == step(opened));
        assert(stream(v) == stream(opened));
        assert(Seq::<u8>::empty() + bytes =~= bytes);
        stream_of_block(opened, Seq::empty(), first);
        let tail = ReaderView {
            block: Some(BlockView { bytes, offset: bytes.len() as int }),
            ..opened
        };
        stream_of_frames(tail, rest);
        concat_front(blocks);
    }
}

/// What comes of opening a file.
pub enum Opened {
    /// The first byte names no compression.
    InvalidCompressionType,
    /// The bytes run out within the first block.
    Truncated,
    /// The first block does not decompress.
    Corrupt,
    /// There is no block.
    Empty { compression: CompressionType },
    /// A reader at the start of the first block.
    At { view: ReaderView },
}

/// The compression of a file: that of its first byte, and none if it has none.
pub open spec fn file_compression(bytes: Seq<u8>) -> Option<CompressionType> {
    if bytes.len() == 0 {
        Some(CompressionType::Uncompressed)
    } else {
        compression_of(bytes[0])
    }
}

/// The blocks of a file: all that follows its first byte.
pub open spec fn file_body(bytes: Seq<u8>) -> Seq<u8> {
    if bytes.len() == 0 {
        bytes
    } else {
        bytes.skip(1)
    }
}

/// Opens a file.
pub open spec fn open_file(bytes: Seq<u8>) -> Opened {
    match file_compression(bytes) {
        None => Opened::InvalidCompressionType,
        Some(compression) => match load(compression, file_body(bytes)) {
            Load::End => Opened::Empty { compression },
            Load::Truncated { .. } => Opened::Truncated,
            Load::Corrupt { .. } => Opened::Corrupt,
            Load::Block { bytes, rest } => Opened::At {
                view: ReaderView {
                    compression,
                    block: Some(BlockView { bytes, offset: 0 }),
                    pending: rest,
                },
            },
        },
    }
}

/// Whether bytes are a file that yields the given entries, all of them, and then
/// ends.
pub open spec fn holds(bytes: Seq<u8>, entries: Seq<KeyVal>) -> bool {
    match open_file(bytes) {
        Opened::Empty { .. } => entries.len() == 0,
        Opened::At { view } => stream(view) == (Stream { entries, end: StreamEnd::End }),
        _ => false,
    }
}

/// Whether a reader is in a block at the first of the given entries, and the given
/// blocks follow.
pub open spec fn reads_at(
    v: ReaderView,
    before: Seq<u8>,
    entries: Seq<KeyVal>,
    blocks: Seq<Seq<KeyVal>>,
) -> bool {
    &&& v.block == Some(BlockView { bytes: before + encoded(entries), offset: before.len() as int })
    &&& v.pending == frames(v.compression, blocks)
    &&& forall|i: int| 0 <= i < entries.len() ==> encodable(#[trigger] entries[i])
    &&& valid_blocks(v.compression, blocks)
}

/// Whether a reader of a file has the given entries left to read, and nothing else.
pub open spec fn has_left(v: ReaderView, left: Seq<KeyVal>) -> bool {
    ||| v.block is None && left.len() == 0
    ||| exists|before: Seq<u8>, entries: Seq<KeyVal>, blocks: Seq<Seq<KeyVal>>| #[trigger]
        reads_at(v, before, entries, blocks) && entries + concat(blocks) == left
}

/// A file opens to a reader that has all the entries of its blocks left to read.
pub proof fn opened_has_left(compression: CompressionType, blocks: Seq<Seq<KeyVal>>)
    requires
        valid_blocks(compression, blocks),
    ensures
        match open_file(file(compression, blocks)) {
            Opened::Empty { .. } => blocks.len() == 0,
            Opened::At { view } => has_left(view, concat(blocks)),
            _ => false,
        },
{
    let bytes = file(compression, blocks);
    tag_round_trip(compression);
    assert(bytes.skip(1) =~= frames(compression, blocks));
    if blocks.len() > 0 {
        let first = blocks.first();
        let rest = blocks.drop_first();
        assert(valid_block(compression, blocks[0]));
        assert forall|i: int| #![trigger rest[i]]
            0 <= i < rest.len() implies valid_block(compression, rest[i]) by {
            assert(rest[i] == blocks[i + 1]);
        }
        frames_front(compression, blocks);
        load_frame(compression, encoded(first), frames(compression, rest));
        concat_front(blocks);
        let view = open_file(bytes)->view;
        assert(Seq::<u8>::empty() + encoded(first) =~= encoded(first));
        assert(reads_at(view, Seq::empty(), first, rest));
    }
}

/// A file yields the entries of its blocks, in order.
pub proof fn file_holds(compression: CompressionType, blocks: Seq<Seq<KeyVal>>)
    requires
        valid_blocks(compression, blocks),
    ensures
        holds(file(compression, blocks), concat(blocks)),
{
    let bytes = file(compression, blocks);
    tag_round_trip(compression);
    assert(bytes.skip(1) =~= frames(compression, blocks));
    if blocks.len() > 0 {
        let first = blocks.first();
        let rest = blocks.drop_first();
        assert(valid_block(compression, blocks[0]));
        frames_front(compression, blocks);
        load_frame(compression, encoded(first), frames(compression, rest));
        let before = ReaderView {
            compression,
            block: Some(BlockView { bytes: Seq::empty(), offset: 0 }),
            pending: frames(compression, blocks),
        };
        stream_of_frames(before, blocks);
        let opened = ReaderView {
            compression,
            block: Some(BlockView { bytes: encoded(first), offset: 0 }),
            pending: frames(compression, rest),
        };
        encoded_front(first);
        entry_round_trip(Seq::empty(), first[0], Seq::empty());
        assert(step(before) == step(opened));
        assert(stream(before) == stream(opened));
    }
}

/// An entry can be written where its key and its value are each shorter than 4 GiB.
pub proof fn encodable_lengths(entry: KeyVal)
    ensures
        encodable(entry) <==> entry.0.len() < 0x1_0000_0000 && entry.1.len() < 0x1_0000_0000,
{
}

/// The bytes of an entry: two numbers that spell the lengths of its key and of its value,
/// then the key, then the value, and nothing else.
pub proof fn entry_layout(entry: KeyVal)
    requires
        entry.0.len() < 0x1_0000_0000,
        entry.1.len() < 0x1_0000_0000,
    ensures
        ({
            let bytes = encoded_entry(entry);
            varint_decoded(bytes) matches Some((key_len, n)) && {
                &&& key_len == entry.0.len()
                &&& varint_decoded(bytes.skip(n as int)) matches Some((val_len, m)) && {
                    &&& val_len == entry.1.len()
                    &&& bytes.len() == n + m + key_len + val_len
                    &&& bytes.subrange((n + m) as int, (n + m + key_len) as int) == entry.0
                    &&& bytes.skip((n + m + key_len) as int) == entry.1
                }
            }
        }),
        entry.0.len() < 128 && entry.1.len() < 128 ==> encoded_entry(entry) == seq![
            entry.0.len() as u8,
            entry.1.len() as u8,
        ] + entry.0 + entry.1,
{
    let (key, val) = entry;
    let bytes = encoded_entry(entry);
    let (n, m) = (varint(key.len()), varint(val.len()));
    varint_round_trip(key.len(), m + key + val);
    assert(bytes =~= n + (m + key + val));
    varint_round_trip(val.len(), key + val);
    assert(bytes.skip(n.len() as int) =~= m + (key + val));
    let at = (n.len() + m.len()) as int;
    assert(bytes.subrange(at, (at + key.len()) as int) =~= key);
    assert(bytes.skip((at + key.len()) as int) =~= val);
    if key.len() < 128 && val.len() < 128 {
        assert(bytes =~= seq![key.len() as u8, val.len() as u8] + key + val);
    }
}

/// The entry at an offset: where two numbers are spelt there, and as many bytes follow as
/// they say, its key is as many bytes as the first says, from there on, and its value as
/// many as the second says, after the key. Anywhere else there is none.
pub proof fn entry_at_spelt(block: Seq<u8>, offset: int)
    requires
        0 <= offset <= block.len(),
    ensures
        match varint_decoded(block.skip(offset)) {
            None => entry_at(block, offset) is None,
            Some((key_len, n)) => match varint_decoded(block.skip((offset + n) as int)) {
                None => entry_at(block, offset) is None,
                Some((val_len, m)) => if offset + n + m + key_len + val_len <= block.len() {
                    entry_at(block, offset) matches Some(b) && {
                        &&& b.key - offset == n + m
                        &&& b.val - b.key == key_len
                        &&& b.end - b.val == val_len
                    }
                } else {
                    entry_at(block, offset) is None
                },
            },
        },
{
    varint_decoded_len(block.skip(offset));
    if let Some((key_len, n)) = varint_decoded(block.skip(offset)) {
        assert(block.skip(offset).skip(n as int) =~= block.skip(offset + n));
    }
}

/// Every entry whose key and value are each shorter than 4 GiB is read back from where it
/// was written, whatever stands before and after it.
pub proof fn entry_is_read_back(before: Seq<u8>, entry: KeyVal, after: Seq<u8>)
    requires
        entry.0.len() < 0x1_0000_0000,
        entry.1.len() < 0x1_0000_0000,
    ensures
        ({
            let block = before + encoded_entry(entry) + after;
            entry_at(block, before.len() as int) matches Some(b) && {
                &&& b.val - b.key == entry.0.len()
                &&& b.end - b.val == entry.1.len()
                &&& block.subrange(b.key, b.val) == entry.0
                &&& block.subrange(b.val, b.end) == entry.1
                &&& block.skip(b.end) == after
            }
        }),
{
    entry_round_trip(before, entry, after);
    let block = before + encoded_entry(entry) + after;
    let b = entry_at(block, before.len() as int)->0;
    entry_at_bounds(block, before.len() as int);
    assert(block.skip(b.end) =~= after);
    assert(block.subrange(b.key, b.val).len() == b.val - b.key);
    assert(block.subrange(b.val, b.end).len() == b.end - b.val);
}

/// A block is read off bytes: eight of them give its length, as many follow, and the rest
/// is left. Fewer than eight are the end, and fewer than the length are too few.
pub proof fn load_by_length(compression: CompressionType, pending: Seq<u8>)
    ensures
        pending.len() < 8 ==> load(compression, pending) is End,
        pending.len() >= 8 ==> {
            // The sum of eight bytes, each times its power of 256.
            let len = pending[0] * 0x100_0000_0000_0000
                + pending[1] * 0x1_0000_0000_0000
                + pending[2] * 0x100_0000_0000
                + pending[3] * 0x1_0000_0000
                + pending[4] * 0x100_0000
                + pending[5] * 0x1_0000
                + pending[6] * 0x100
                + pending[7];
            len <= usize::MAX ==> if pending.len() < 8 + len {
                load(compression, pending) matches Load::Truncated { len: announced }
                    && announced == len
            } else {
                let stored = pending.subrange(8, 8 + len);
                match decompressed(compression, stored) {
                    Some(bytes) => load(compression, pending) == (Load::Block {
                        bytes,
                        rest: pending.skip(8 + len),
                    }),
                    None => load(compression, pending) == (Load::Corrupt {
                        stored,
                        rest: pending.skip(8 + len),
                    }),
                }
            }
        },
{
    if pending.len() >= 8 {
        be_value_of_eight(pending.take(8));
    }
}

/// A block as it stands in a file: eight bytes that give the length of what it is stored
/// as, and then that.
pub proof fn frame_layout(compression: CompressionType, block: Seq<u8>)
    requires
        compressed(compression, block).len() <= u64::MAX,
    ensures
        ({
            let bytes = frame(compression, block);
            &&& bytes.len() == 8 + compressed(compression, block).len()
            // The sum of eight bytes, each times its power of 256.
            &&& compressed(compression, block).len() == bytes[0] * 0x100_0000_0000_0000
                + bytes[1] * 0x1_0000_0000_0000
                + bytes[2] * 0x100_0000_0000
                + bytes[3] * 0x1_0000_0000
                + bytes[4] * 0x100_0000
                + bytes[5] * 0x1_0000
                + bytes[6] * 0x100
                + bytes[7]
            &&& bytes.skip(8) == compressed(compression, block)
        }),
{
    let stored = compressed(compression, block);
    be_bytes_of_eight(stored.len());
    assert(frame(compression, block).skip(8) =~= stored);
}

/// A file: the byte of its compression, and then its blocks, each of which is its entries
/// one after the other.
pub proof fn file_layout(compression: CompressionType, blocks: Seq<Seq<KeyVal>>)
    ensures
        file(compression, blocks) == seq![compression.tag()] + blocks.map_values(
            |block: Seq<KeyVal>|
                frame(
                    compression,
                    block.map_values(|entry: KeyVal| encoded_entry(entry)).flatten(),
                ),
        ).flatten(),
{
    let f = |block: Seq<KeyVal>| frame(compression, encoded(block));
    let g = |block: Seq<KeyVal>|
        frame(compression, block.map_values(|entry: KeyVal| encoded_entry(entry)).flatten());
    assert forall|i: int| 0 <= i < blocks.len() implies #[trigger] f(blocks[i]) == g(blocks[i]) by {
        concat_flattens(blocks[i].map_values(|entry: KeyVal| encoded_entry(entry)));
    }
    assert(blocks.map_values(f) =~= blocks.map_values(g));
    concat_flattens(blocks.map_values(f));
}

/// The bytes of a block with another length: the same where there are such, and zeros
/// beyond them.
pub proof fn resized_bytes(bytes: Seq<u8>, len: nat)
    requires
        len <= isize::MAX,
    ensures
        resized(bytes, len).len() == len,
        forall|i: int| 0 <= i < len ==> #[trigger] resized(bytes, len)[i] == if i < bytes.len() {
            bytes[i]
        } else {
            0
        },
{
}

/// A reader within a block yields the entry there, and goes on behind it.
pub proof fn step_within_block(v: ReaderView)
    requires
        v.block matches Some(b) && 0 <= b.offset < b.bytes.len(),
    ensures
        ({
            let (bytes, offset) = (v.block->0.bytes, v.block->0.offset);
            match entry_at(bytes, offset) {
                None => step(v) == (Step::Malformed { next: v }),
                Some(b) => step(v) matches Step::Entry { entry, next } && {
                    &&& entry.0 == bytes.subrange(b.key, b.val)
                    &&& entry.1 == bytes.subrange(b.val, b.end)
                    &&& next.compression == v.compression
                    &&& next.pending == v.pending
                    &&& next.block == Some(BlockView { bytes, offset: b.end })
                },
            }
        }),
{
}

/// A reader that is through with a block goes on in the next one, as if it had been in
/// that from the start. Where there is none, it is at the end, and a block without bytes
/// yields nothing.
pub proof fn step_to_next_block(v: ReaderView)
    requires
        v.block matches Some(b) && b.offset == b.bytes.len(),
    ensures
        match load(v.compression, v.pending) {
            Load::End => step(v) is End,
            Load::Truncated { len } => step(v) matches Step::Truncated { block } && block.offset
                == 0 && block.bytes == resized(v.block->0.bytes, len as nat),
            Load::Corrupt { stored, rest } => step(v) matches Step::Corrupt { next }
                && next.compression == v.compression && next.pending == rest && next.block == Some(
                BlockView { bytes: stored, offset: 0 },
            ),
            Load::Block { bytes, rest } => {
                let next = ReaderView {
                    compression: v.compression,
                    block: Some(BlockView { bytes, offset: 0 }),
                    pending: rest,
                };
                if bytes.len() == 0 {
                    step(v) == (Step::EmptyBlock { next })
                } else {
                    step(v) == step(next)
                }
            },
        },
{
}

/// A reader yields what it yields step by step: as many entries as it is asked for one
/// after the other, until a step yields none.
pub proof fn stream_by_steps(v: ReaderView) -> (views: Seq<ReaderView>)
    requires
        v.sound(),
    ensures
        views.len() == stream(v).entries.len() + 1,
        views[0] == v,
        forall|i: int| #![trigger stream(v).entries[i]]
            0 <= i < stream(v).entries.len() ==> step(views[i]) == (Step::Entry {
                entry: stream(v).entries[i],
                next: views[i + 1],
            }),
        match step(views.last()) {
            Step::Entry { .. } => false,
            Step::End => stream(v).end is End,
            Step::EmptyBlock { .. } => stream(v).end is End,
            Step::Truncated { .. } => stream(v).end is Truncated,
            Step::Corrupt { .. } => stream(v).end is Corrupt,
            Step::Malformed { .. } => stream(v).end is Malformed,
        },
    decreases v.pending.len(), v.unread(),
{
    step_progress(v);
    match step(v) {
        Step::Entry { entry, next } => {
            let rest = stream_by_steps(next);
            let views = seq![v] + rest;
            assert forall|i: int| #![trigger stream(v).entries[i]]
                0 <= i < stream(v).entries.len() implies step(views[i]) == (Step::Entry {
                entry: stream(v).entries[i],
                next: views[i + 1],
            }) by {
                if i > 0 {
                    assert(views[i] == rest[i - 1]);
                    assert(stream(v).entries[i] == stream(next).entries[i - 1]);
                }
            }
            assert(views.last() == rest.last());
            views
        },
        _ => seq![v],
    }
}

/// A file is opened by its first byte, which names the compression, and its first block. A
/// file without bytes, or with none but the first, has no entries.
pub proof fn opening(bytes: Seq<u8>)
    ensures
        bytes.len() == 0 ==> open_file(bytes) == (Opened::Empty {
            compression: CompressionType::Uncompressed,
        }),
        bytes.len() > 0 ==> match compression_of(bytes[0]) {
            None => open_file(bytes) is InvalidCompressionType,
            Some(compression) => match load(compression, bytes.skip(1)) {
                Load::End => open_file(bytes) == (Opened::Empty { compression }),
                Load::Truncated { .. } => open_file(bytes) is Truncated,
                Load::Corrupt { .. } => open_file(bytes) is Corrupt,
                Load::Block { bytes: block, rest } => open_file(bytes) matches Opened::At { view }
                    && view.compression == compression && view.pending == rest && view.block
                    == Some(BlockView { bytes: block, offset: 0 }),
            },
        },
{
}

/// A file that holds entries yields them, one step after the other, and then no more.
pub proof fn held_entries_are_read(bytes: Seq<u8>, entries: Seq<KeyVal>) -> (views: Seq<ReaderView>)
    requires
        holds(bytes, entries),
        entries.len() > 0,
    ensures
        open_file(bytes) == (Opened::At { view: views[0] }),
        views.len() == entries.len() + 1,
        forall|i: int| #![trigger entries[i]]
            0 <= i < entries.len() ==> step(views[i]) == (Step::Entry {
                entry: entries[i],
                next: views[i + 1],
            }),
        step(views.last()) is End || step(views.last()) is EmptyBlock,
{
    match open_file(bytes) {
        Opened::At { view } => {
            let views = stream_by_steps(view);
            assert(stream(view).entries == entries);
            views
        },
        _ => arbitrary(),
    }
}

} // verus!
