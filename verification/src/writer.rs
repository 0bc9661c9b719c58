//! Writing the entries of a file.

use crate::compression::{compress, compressible, CompressionType};
use crate::endian::u64_to_be;
use crate::error::{Error, IoError};
use crate::format::{
    encodable, encoded, encoded_entry, encoded_push, entry_round_trip, file, file_holds,
    file_layout, frame, frames, frames_push, held_entries_are_read, holds, open_file, step,
    valid_block, valid_blocks, KeyVal, Opened, ReaderView, Step,
};
use crate::io::Write;
use crate::reader::{fails_with, faulted};
use crate::seqs::{concat, concat_add, concat_flattens, concat_push};
use crate::varint::varint_encode32;
use vstd::prelude::*;

verus! {

/// The size that a block is closed at unless another is asked for.
pub const DEFAULT_BLOCK_SIZE: usize = 8192;

/// The smallest size that a block can be closed at.
pub const MIN_BLOCK_SIZE: usize = 1024;

/// The larger of two sizes.
pub open spec fn at_least(size: usize, min: usize) -> usize {
    if size < min {
        min
    } else {
        size
    }
}

/// How a writer is to write.
#[derive(Debug, Clone, Copy)]
pub struct WriterBuilder {
    compression_type: CompressionType,
    compression_level: u32,
    block_size: usize,
}

/// The settings of a [`WriterBuilder`].
pub struct WriterSettings {
    pub compression: CompressionType,
    pub level: u32,
    pub block_size: usize,
}

impl View for WriterBuilder {
    type V = WriterSettings;

    closed spec fn view(&self) -> WriterSettings {
        WriterSettings {
            compression: self.compression_type,
            level: self.compression_level,
            block_size: self.block_size,
        }
    }
}

impl WriterBuilder {
    /// A writer of blocks that are not compressed, of the default size.
    pub fn new() -> (builder: WriterBuilder)
        ensures
            builder@ == (WriterSettings {
                compression: CompressionType::Uncompressed,
                level: 0,
                block_size: DEFAULT_BLOCK_SIZE,
            }),
    {
        WriterBuilder {
            compression_type: CompressionType::Uncompressed,
            compression_level: 0,
            block_size: DEFAULT_BLOCK_SIZE,
        }
    }

    /// The compression of the blocks.
    pub fn compression_type(&mut self, compression: CompressionType) -> (r: &mut Self)
        ensures
            (*r)@ == (WriterSettings { compression, ..old(self)@ }),
            *final(self) == *final(r),
    {
        self.compression_type = compression;
        self
    }

    /// The level of the compression.
    pub fn compression_level(&mut self, level: u32) -> (r: &mut Self)
        ensures
            (*r)@ == (WriterSettings { level, ..old(self)@ }),
            *final(self) == *final(r),
    {
        self.compression_level = level;
        self
    }

    /// The size that blocks are closed at.
    pub fn block_size(&mut self, size: usize) -> (r: &mut Self)
        ensures
            (*r)@ == (WriterSettings { block_size: at_least(size, MIN_BLOCK_SIZE), ..old(self)@ }),
            size >= MIN_BLOCK_SIZE ==> (*r)@.block_size == size,
            size < MIN_BLOCK_SIZE ==> (*r)@.block_size == MIN_BLOCK_SIZE,
            *final(self) == *final(r),
    {
        self.block_size = if size < MIN_BLOCK_SIZE {
            MIN_BLOCK_SIZE
        } else {
            size
        };
        self
    }

    /// Creates a writer, which writes the byte of the compression at once.
    pub fn build<W: Write>(&self, mut writer: W) -> (r: Result<Writer<W>, Error>)
        ensures
            if faulted(r) {
                fails_with(r, writer.write_faults())
            } else {
                r matches Ok(w) && {
                    &&& w.wf()
                    &&& w.write_faults().subset_of(writer.write_faults())
                    &&& w@ == (WriterView {
                        start: writer.written(),
                        compression: self@.compression,
                        block_size: self@.block_size,
                        blocks: Seq::empty(),
                        current: Seq::empty(),
                    })
                }
            },
    {
        let ghost start = writer.written();
        let mut tag: Vec<u8> = Vec::new();
        tag.push(self.compression_type.to_u8());
        match writer.write_all(tag.as_slice()) {
            Ok(()) => {},
            Err(e) => return Err(Error::Io(e)),
        }
        let w = Writer {
            block: Vec::new(),
            block_size: self.block_size,
            compression_type: self.compression_type,
            compression_level: self.compression_level,
            writer,
            start: Ghost(start),
            blocks: Ghost(Seq::empty()),
            current: Ghost(Seq::empty()),
        };
        proof {
            assert(encoded(Seq::empty()) =~= Seq::empty());
            assert(frames(self.compression_type, Seq::empty()) =~= Seq::empty());
            assert(w.writer.written() =~= start + file(self.compression_type, Seq::empty()));
        }
        Ok(w)
    }

    /// Creates a writer into a new vector.
    pub fn memory(&self) -> (w: Writer<Vec<u8>>)
        ensures
            w.wf(),
            w.write_faults() == Set::<std::io::Error>::empty(),
            w@ == (WriterView {
                start: Seq::empty(),
                compression: self@.compression,
                block_size: self@.block_size,
                blocks: Seq::empty(),
                current: Seq::empty(),
            }),
    {
        let bytes: Vec<u8> = Vec::new();
        match self.build(bytes) {
            Ok(w) => w,
            Err(_) => vstd::pervasive::unreached(),
        }
    }
}

/// What a writer has written and what it has still to write.
#[verifier::ext_equal]
pub struct WriterView {
    /// The bytes that had been written before the file.
    pub start: Seq<u8>,
    pub compression: CompressionType,
    /// The size that blocks are closed at.
    pub block_size: usize,
    /// The entries of the blocks that have been written.
    pub blocks: Seq<Seq<KeyVal>>,
    /// The entries of the block that is still open.
    pub current: Seq<KeyVal>,
}

impl WriterView {
    /// The entries that have been inserted.
    pub open spec fn entries(self) -> Seq<KeyVal> {
        concat(self.blocks) + self.current
    }

    /// The block that is open, with one more entry.
    pub open spec fn with(self, entry: KeyVal) -> WriterView {
        WriterView { current: self.current.push(entry), ..self }
    }

    /// With the open block written.
    pub open spec fn flushed(self) -> WriterView {
        WriterView { blocks: self.blocks.push(self.current), current: Seq::empty(), ..self }
    }

    /// Whether the open block has reached the size that it is closed at.
    pub open spec fn is_full(self) -> bool {
        encoded(self.current).len() >= self.block_size
    }

    /// Whether the open block can be written.
    pub open spec fn flushable(self) -> bool {
        compressible(self.compression, encoded(self.current).len())
    }

    /// With one more entry, and written where that fills the block.
    pub open spec fn inserted(self, entry: KeyVal) -> WriterView {
        if self.with(entry).is_full() {
            self.with(entry).flushed()
        } else {
            self.with(entry)
        }
    }

    /// Whether an entry can be inserted: its lengths are numbers of 32 bits, and
    /// the block can be written if the entry fills it.
    pub open spec fn accepts(self, entry: KeyVal) -> bool {
        encodable(entry) && (self.with(entry).is_full() ==> self.with(entry).flushable())
    }

    /// What is left of an entry that cannot be inserted: it stands in the open
    /// block where its lengths can be written, and the block cannot.
    pub open spec fn refused(self, entry: KeyVal) -> WriterView {
        if encodable(entry) {
            self.with(entry)
        } else {
            self
        }
    }

    /// With nothing left to write.
    pub open spec fn finished(self) -> WriterView {
        if self.current.len() == 0 {
            self
        } else {
            self.flushed()
        }
    }

    /// The bytes of the file so far.
    pub open spec fn bytes(self) -> Seq<u8> {
        file(self.compression, self.blocks)
    }
}

/// Whether an entry can be too long for a writer whose open block has not reached
/// the size that it is closed at: a length is no number of 32 bits, or the block
/// that the entry fills cannot be compressed.
pub open spec fn too_long(compression: CompressionType, block_size: usize, entry: KeyVal) -> bool {
    !encodable(entry) || !compressible(compression, block_size as nat + encoded_entry(entry).len())
}

/// A writer whose open block is not full takes every entry that is not too long.
pub proof fn refused_too_long(v: WriterView, entry: KeyVal)
    requires
        !v.is_full(),
        !v.accepts(entry),
    ensures
        too_long(v.compression, v.block_size, entry),
{
    encoded_push(v.current, entry);
}

/// With entries inserted one after the other.
pub open spec fn inserted_all(v: WriterView, entries: Seq<KeyVal>) -> WriterView
    decreases entries.len(),
{
    if entries.len() == 0 {
        v
    } else {
        inserted_all(v, entries.drop_last()).inserted(entries.last())
    }
}

/// Inserting entries one after the other puts them after those inserted before.
pub proof fn inserted_all_entries(v: WriterView, entries: Seq<KeyVal>)
    ensures
        inserted_all(v, entries).entries() == v.entries() + entries,
        inserted_all(v, entries).start == v.start,
        inserted_all(v, entries).compression == v.compression,
        inserted_all(v, entries).block_size == v.block_size,
    decreases entries.len(),
{
    if entries.len() == 0 {
        assert(v.entries() + entries =~= v.entries());
    } else {
        inserted_all_entries(v, entries.drop_last());
        inserted_entries(inserted_all(v, entries.drop_last()), entries.last());
        assert((v.entries() + entries.drop_last()).push(entries.last()) =~= v.entries() + entries);
    }
}

/// Inserting leaves no block open that has reached the size that it is closed at.
pub proof fn inserted_all_not_full(v: WriterView, entries: Seq<KeyVal>)
    requires
        !v.is_full(),
        v.block_size > 0,
    ensures
        !inserted_all(v, entries).is_full(),
        inserted_all(v, entries).block_size == v.block_size,
    decreases entries.len(),
{
    if entries.len() > 0 {
        inserted_all_not_full(v, entries.drop_last());
        assert(encoded(Seq::empty()) =~= Seq::empty());
    }
}

/// Inserting puts the entry after those inserted before it.
pub proof fn inserted_entries(v: WriterView, entry: KeyVal)
    ensures
        v.inserted(entry).entries() == v.entries().push(entry),
{
    flushed_entries(v.with(entry));
    assert(v.with(entry).entries() =~= v.entries().push(entry));
}

proof fn flushed_entries(v: WriterView)
    ensures
        v.flushed().entries() == v.entries(),
{
    concat_push(v.blocks, v.current);
    assert(v.flushed().entries() =~= v.entries());
}

/// What is read of a finished file is what was inserted, in the order in which it
/// was.
pub proof fn finished_holds_entries(v: WriterView)
    requires
        valid_blocks(v.compression, v.finished().blocks),
    ensures
        holds(v.finished().bytes(), v.entries()),
{
    file_holds(v.compression, v.finished().blocks);
    flushed_entries(v);
    if v.current.len() == 0 {
        assert(v.entries() =~= concat(v.blocks));
    } else {
        assert(v.flushed().entries() =~= concat(v.flushed().blocks));
    }
}

/// Writes entries into blocks, and blocks into a destination.
pub struct Writer<W> {
    block: Vec<u8>,
    block_size: usize,
    compression_type: CompressionType,
    compression_level: u32,
    writer: W,
    start: Ghost<Seq<u8>>,
    blocks: Ghost<Seq<Seq<KeyVal>>>,
    current: Ghost<Seq<KeyVal>>,
}

impl Writer<Vec<u8>> {
    /// The settings of a writer, to be changed.
    pub fn builder() -> (builder: WriterBuilder)
        ensures
            builder@ == (WriterSettings {
                compression: CompressionType::Uncompressed,
                level: 0,
                block_size: DEFAULT_BLOCK_SIZE,
            }),
    {
        WriterBuilder::new()
    }
}

impl<W: Write> View for Writer<W> {
    type V = WriterView;

    closed spec fn view(&self) -> WriterView {
        WriterView {
            start: self.start@,
            compression: self.compression_type,
            block_size: self.block_size,
            blocks: self.blocks@,
            current: self.current@,
        }
    }
}

impl<W: Write> Writer<W> {
    /// Whether what has been written is the file that the view says.
    pub closed spec fn wf(&self) -> bool {
        &&& self.block@ == encoded(self@.current)
        &&& forall|i: int|
            0 <= i < self@.current.len() ==> encodable(#[trigger] self@.current[i])
        &&& valid_blocks(self@.compression, self@.blocks)
        &&& self.writer.written() == self@.start + self@.bytes()
    }

    /// The errors that writing can fail with and what is inserted does not explain.
    pub closed spec fn write_faults(&self) -> Set<std::io::Error> {
        self.writer.write_faults()
    }

    /// The destination that the writer writes into.
    pub closed spec fn destination(&self) -> W {
        self.writer
    }

    /// What stands in the destination of a well-formed writer.
    pub proof fn wf_written(&self)
        requires
            self.wf(),
        ensures
            self.destination().written() == self@.start + self@.bytes(),
            self.destination().write_faults() == self.write_faults(),
            holds(self@.bytes(), concat(self@.blocks)),
    {
        file_holds(self@.compression, self@.blocks);
    }

    /// Writes the open block.
    fn flush(&mut self) -> (r: Result<(), Error>)
        requires
            old(self).wf(),
            old(self)@.current.len() > 0,
        ensures
            final(self).write_faults().subset_of(old(self).write_faults()),
            if faulted(r) {
                fails_with(r, old(self).write_faults())
            } else if old(self)@.flushable() {
                r is Ok && final(self).wf() && final(self)@ == old(self)@.flushed()
            } else {
                (r matches Err(Error::Io(IoError::InvalidInput))) && final(self).wf()
                    && final(self)@ == old(self)@
            },
    {
        let stored = match compress(
            self.compression_type,
            self.compression_level,
            self.block.as_slice(),
        ) {
            Ok(stored) => stored,
            Err(e) => return Err(Error::Io(e)),
        };
        let header = u64_to_be(stored.len() as u64);
        match self.writer.write_all(header.as_slice()) {
            Ok(()) => {},
            Err(e) => return Err(Error::Io(e)),
        }
        match self.writer.write_all(stored.as_slice()) {
            Ok(()) => {},
            Err(e) => return Err(Error::Io(e)),
        }
        self.block.clear();
        self.blocks = Ghost(self.blocks@.push(self.current@));
        self.current = Ghost(Seq::empty());
        proof {
            let v = old(self)@;
            assert(encoded(Seq::empty()) =~= Seq::empty());
            frames_push(v.compression, v.blocks, v.current);
            assert(valid_block(v.compression, v.current));
            assert(self.writer.written() =~= v.start + (v.bytes() + frame(
                v.compression,
                encoded(v.current),
            )));
            assert(v.flushed().bytes() =~= v.bytes() + frame(v.compression, encoded(v.current)));
            assert(self@ =~= v.flushed());
        }
        Ok(())
    }

    /// Inserts an entry. Entries are read back in the order in which they were
    /// inserted.
    pub fn insert(&mut self, key: &[u8], val: &[u8]) -> (r: Result<(), Error>)
        requires
            old(self).wf(),
        ensures
            final(self).write_faults().subset_of(old(self).write_faults()),
            if faulted(r) {
                fails_with(r, old(self).write_faults())
            } else if old(self)@.accepts((key@, val@)) {
                r is Ok && final(self).wf() && final(self)@ == old(self)@.inserted((key@, val@))
            } else {
                &&& r matches Err(Error::Io(IoError::InvalidInput))
                &&& final(self).wf()
                &&& final(self)@ == old(self)@.refused((key@, val@))
            },
    {
        if key.len() > 0xffff_ffff || val.len() > 0xffff_ffff {
            return Err(Error::Io(IoError::InvalidInput));
        }
        varint_encode32(&mut self.block, key.len() as u32);
        varint_encode32(&mut self.block, val.len() as u32);
        self.block.extend_from_slice(key);
        self.block.extend_from_slice(val);
        self.current = Ghost(self.current@.push((key@, val@)));
        proof {
            encoded_push(old(self)@.current, (key@, val@));
            assert(self.block@ =~= old(self).block@ + encoded_entry((key@, val@)));
            assert(self@ =~= old(self)@.with((key@, val@)));
        }
        if self.block.len() >= self.block_size {
            self.flush()
        } else {
            Ok(())
        }
    }

    /// Writes what is left and gives the destination back.
    pub fn into_inner(self) -> (r: Result<W, Error>)
        requires
            self.wf(),
        ensures
            if faulted(r) {
                fails_with(r, self.write_faults())
            } else if self@.current.len() == 0 || self@.flushable() {
                r matches Ok(w) && {
                    &&& w.written() == self@.start + self@.finished().bytes()
                    &&& valid_blocks(self@.compression, self@.finished().blocks)
                    &&& holds(self@.finished().bytes(), self@.entries())
                    &&& w.write_faults().subset_of(self.write_faults())
                }
            } else {
                r matches Err(Error::Io(IoError::InvalidInput))
            },
    {
        let ghost v = self@;
        let mut this = self;
        proof {
            if v.current.len() > 0 {
                encoded_push(v.current.drop_last(), v.current.last());
                assert(v.current.drop_last().push(v.current.last()) =~= v.current);
                assert(encodable(v.current[v.current.len() - 1]));
                entry_round_trip(Seq::empty(), v.current.last(), Seq::empty());
            } else {
                assert(v.current =~= Seq::empty());
                assert(encoded(v.current) =~= Seq::empty());
            }
        }
        if this.block.len() > 0 {
            match this.flush() {
                Ok(()) => {},
                Err(e) => return Err(e),
            }
        }
        proof {
            finished_holds_entries(v);
        }
        Ok(this.writer)
    }
}

/// The larger of two sizes is one of them, and neither is larger.
pub proof fn at_least_is_the_larger(size: usize, min: usize)
    ensures
        at_least(size, min) >= size,
        at_least(size, min) >= min,
        at_least(size, min) == size || at_least(size, min) == min,
{
}

/// A writer takes every entry whose key and value are each shorter than 4 GiB, but for one
/// that fills a block which Snappy cannot compress; and it takes no other.
pub proof fn accepted_lengths(w: WriterView, entry: KeyVal)
    ensures
        w.compression is Uncompressed ==> (w.accepts(entry) <==> entry.0.len() < 0x1_0000_0000
            && entry.1.len() < 0x1_0000_0000),
        w.compression is Snappy ==> {
            let len = encoded(w.current).len() + encoded_entry(entry).len();
            w.accepts(entry) <==> {
                &&& entry.0.len() < 0x1_0000_0000
                &&& entry.1.len() < 0x1_0000_0000
                &&& len < w.block_size || 32 + len + len / 6 < 0x1_0000_0000
            }
        },
{
    encoded_push(w.current, entry);
}

/// An entry that a writer takes stands behind those taken before. It stands in the open
/// block as long as that is shorter than the size that blocks are closed at; the entry
/// with which it is not closes the block. Nothing else of the writer changes.
pub proof fn insertion_closes_blocks(w: WriterView, entry: KeyVal)
    ensures
        ({
            let len = encoded(w.current).len() + encoded_entry(entry).len();
            let after = w.inserted(entry);
            &&& after.start == w.start
            &&& after.compression == w.compression
            &&& after.block_size == w.block_size
            &&& after.blocks.flatten() + after.current == (w.blocks.flatten() + w.current).push(
                entry,
            )
            &&& if len < w.block_size {
                after.blocks == w.blocks && after.current == w.current.push(entry)
            } else {
                after.blocks == w.blocks.push(w.current.push(entry)) && after.current.len() == 0
            }
        }),
{
    encoded_push(w.current, entry);
    inserted_entries(w, entry);
    concat_flattens(w.blocks);
    concat_flattens(w.inserted(entry).blocks);
}

/// A writer that does not take an entry has it in its open block where its lengths can be
/// written, and is as it was where they cannot.
pub proof fn refusal(w: WriterView, entry: KeyVal)
    ensures
        entry.0.len() < 0x1_0000_0000 && entry.1.len() < 0x1_0000_0000 ==> {
            &&& w.refused(entry).current == w.current.push(entry)
            &&& w.refused(entry).blocks == w.blocks
            &&& w.refused(entry).start == w.start
            &&& w.refused(entry).compression == w.compression
            &&& w.refused(entry).block_size == w.block_size
        },
        entry.0.len() >= 0x1_0000_0000 || entry.1.len() >= 0x1_0000_0000 ==> w.refused(entry) == w,
{
}

/// Finishing closes the open block, if it has entries, and leaves no entry out.
pub proof fn finishing(w: WriterView)
    ensures
        w.current.len() == 0 ==> w.finished() == w,
        w.current.len() > 0 ==> {
            &&& w.finished().blocks == w.blocks.push(w.current)
            &&& w.finished().current.len() == 0
            &&& w.finished().start == w.start
            &&& w.finished().compression == w.compression
            &&& w.finished().block_size == w.block_size
        },
        w.finished().blocks.flatten() == w.blocks.flatten() + w.current,
{
    if w.current.len() > 0 {
        concat_push(w.blocks, w.current);
    } else {
        assert(w.blocks.flatten() + w.current =~= w.blocks.flatten());
    }
    concat_flattens(w.blocks);
    concat_flattens(w.finished().blocks);
}

proof fn encoded_add(a: Seq<KeyVal>, b: Seq<KeyVal>)
    ensures
        encoded(a + b) == encoded(a) + encoded(b),
{
    let f = |entry: KeyVal| encoded_entry(entry);
    concat_add(a.map_values(f), b.map_values(f));
    assert((a + b).map_values(f) =~= a.map_values(f) + b.map_values(f));
}

proof fn uncompressed_blocks_valid(w: WriterView, entries: Seq<KeyVal>)
    requires
        w.blocks.len() == 0,
        w.current.len() == 0,
        w.compression is Uncompressed,
        forall|i: int|
            0 <= i < entries.len() ==> (#[trigger] entries[i]).0.len() < 0x1_0000_0000
                && entries[i].1.len() < 0x1_0000_0000,
        encoded(entries).len() <= usize::MAX,
    ensures
        valid_blocks(w.compression, inserted_all(w, entries).blocks),
        forall|i: int|
            0 <= i < inserted_all(w, entries).current.len() ==> encodable(
                #[trigger] inserted_all(w, entries).current[i],
            ),
        encoded(inserted_all(w, entries).current).len() <= usize::MAX,
    decreases entries.len(),
{
    if entries.len() == 0 {
        assert(w.current =~= entries);
    } else {
        let (init, last) = (entries.drop_last(), entries.last());
        assert(init.push(last) =~= entries);
        encoded_push(init, last);
        assert forall|i: int| 0 <= i < init.len() implies (#[trigger] init[i]).0.len()
            < 0x1_0000_0000 && init[i].1.len() < 0x1_0000_0000 by {
            assert(init[i] == entries[i]);
        }
        assert(entries[entries.len() - 1] == last);
        uncompressed_blocks_valid(w, init);
        let before = inserted_all(w, init);
        let block = before.current.push(last);
        inserted_all_entries(w, entries);
        inserted_all_entries(w, init);
        encoded_add(concat(before.blocks), before.current);
        assert(w.entries() =~= Seq::empty());
        assert(w.entries() + init =~= init);
        encoded_push(before.current, last);
        assert(encoded(block).len() <= usize::MAX);
        assert(valid_block(w.compression, block));
    }
}

/// Entries that were inserted into a new writer are read back from the file that it
/// writes, all of them, one after the other and in the order in which they were inserted,
/// and then there are no more.
pub proof fn inserted_is_read_back(w: WriterView, entries: Seq<KeyVal>) -> (views: Seq<ReaderView>)
    requires
        w.blocks.len() == 0,
        w.current.len() == 0,
        entries.len() > 0,
        valid_blocks(w.compression, inserted_all(w, entries).finished().blocks),
    ensures
        open_file(inserted_all(w, entries).finished().bytes()) == (Opened::At { view: views[0] }),
        views.len() == entries.len() + 1,
        forall|i: int| #![trigger entries[i]]
            0 <= i < entries.len() ==> step(views[i]) == (Step::Entry {
                entry: entries[i],
                next: views[i + 1],
            }),
        step(views.last()) is End || step(views.last()) is EmptyBlock,
{
    let v = inserted_all(w, entries);
    inserted_all_entries(w, entries);
    assert(w.entries() + entries =~= entries);
    finished_holds_entries(v);
    held_entries_are_read(v.finished().bytes(), entries)
}

/// Without compression, all entries whose keys and values are each shorter than 4 GiB are
/// read back so, where a machine can address all that is written.
pub proof fn uncompressed_is_read_back(w: WriterView, entries: Seq<KeyVal>) -> (views: Seq<
    ReaderView,
>)
    requires
        w.blocks.len() == 0,
        w.current.len() == 0,
        w.compression is Uncompressed,
        entries.len() > 0,
        forall|i: int|
            0 <= i < entries.len() ==> (#[trigger] entries[i]).0.len() < 0x1_0000_0000
                && entries[i].1.len() < 0x1_0000_0000,
        encoded(entries).len() <= usize::MAX,
    ensures
        open_file(inserted_all(w, entries).finished().bytes()) == (Opened::At { view: views[0] }),
        views.len() == entries.len() + 1,
        forall|i: int| #![trigger entries[i]]
            0 <= i < entries.len() ==> step(views[i]) == (Step::Entry {
                entry: entries[i],
                next: views[i + 1],
            }),
        step(views.last()) is End || step(views.last()) is EmptyBlock,
{
    uncompressed_blocks_valid(w, entries);
    let v = inserted_all(w, entries);
    if v.current.len() > 0 {
        assert(valid_block(w.compression, v.current));
    }
    inserted_all_entries(w, entries);
    inserted_is_read_back(w, entries)
}

/// Without compression an entry is too long where its key or its value is 4 GiB long or
/// longer; with Snappy also where it can fill a block which that cannot compress.
pub proof fn too_long_lengths(block_size: usize, entry: KeyVal)
    ensures
        too_long(CompressionType::Uncompressed, block_size, entry) <==> entry.0.len()
            >= 0x1_0000_0000 || entry.1.len() >= 0x1_0000_0000,
        too_long(CompressionType::Snappy, block_size, entry) <==> {
            let len = block_size + encoded_entry(entry).len();
            ||| entry.0.len() >= 0x1_0000_0000
            ||| entry.1.len() >= 0x1_0000_0000
            ||| 32 + len + len / 6 >= 0x1_0000_0000
        },
{
}

/// The sizes that blocks are closed at: 8 KiB unless another is asked for, and never less
/// than 1 KiB.
pub proof fn sizes_of_blocks()
    ensures
        DEFAULT_BLOCK_SIZE == 8 * 1024,
        MIN_BLOCK_SIZE == 1024,
{
}

/// The open block can be written without compression in any case, and with Snappy where
/// that can compress it.
pub proof fn what_can_be_written(w: WriterView)
    ensures
        w.compression is Uncompressed ==> w.flushable(),
        w.compression is Snappy ==> (w.flushable() <==> 32 + encoded(w.current).len() + encoded(
            w.current,
        ).len() / 6 < 0x1_0000_0000),
{
}

/// Inserting entries is inserting all but the last of them, and then that.
pub proof fn one_after_the_other(w: WriterView, entries: Seq<KeyVal>, entry: KeyVal)
    ensures
        inserted_all(w, Seq::empty()) == w,
        inserted_all(w, entries.push(entry)) == inserted_all(w, entries).inserted(entry),
{
    assert(entries.push(entry).drop_last() =~= entries);
}

/// What a writer has written of a file: the byte of the compression, and the blocks that
/// are closed.
pub proof fn bytes_so_far(w: WriterView)
    ensures
        w.bytes() == seq![w.compression.tag()] + w.blocks.map_values(
            |block: Seq<KeyVal>|
                frame(
                    w.compression,
                    block.map_values(|entry: KeyVal| encoded_entry(entry)).flatten(),
                ),
        ).flatten(),
{
    let compression = w.compression;
    file_layout(compression, w.blocks);
    let f = |block: Seq<KeyVal>|
        frame(w.compression, block.map_values(|entry: KeyVal| encoded_entry(entry)).flatten());
    let g = |block: Seq<KeyVal>|
        frame(compression, block.map_values(|entry: KeyVal| encoded_entry(entry)).flatten());
    assert(w.blocks.map_values(f) =~= w.blocks.map_values(g));
}

} // verus!
