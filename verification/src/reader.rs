//! Reading the entries of a file.

use crate::compression::{decompress, CompressionType};
use crate::endian::read_u64_be;
use crate::error::{Error, IoError};
use crate::format::{
    encodable, encoded, encoded_entry, encoded_front, entry_at, entry_at_bounds, entry_round_trip,
    entry_step, file_body, frames, frames_front, has_left, load, load_frame, open_file, reads_at,
    resized, step, step_progress, stream, valid_block, BlockView, KeyVal, Load, Opened, ReaderView,
    Step, StreamEnd,
};
use crate::io::Read;
use crate::seqs::{concat, concat_front};
use crate::varint::{varint_decode32, varint_decoded_len};
use vstd::prelude::*;
use vstd::slice::slice_subrange;

verus! {

/// Whether a result is a failure of the reader, the writer or the chunk itself,
/// which the bytes do not explain.
pub open spec fn faulted<T, U>(r: Result<T, Error<U>>) -> bool {
    r matches Err(Error::Io(IoError::Other(_)))
}

/// Whether a result is a failure with one of the errors that a reader, a writer or a
/// chunk can fail with.
pub open spec fn fails_with<T, U>(
    r: Result<T, Error<U>>,
    faults: Set<std::io::Error>,
) -> bool {
    r matches Err(Error::Io(IoError::Other(e))) && faults.contains(e)
}

/// An optional entry that is borrowed, as a value.
pub open spec fn entry_value<U>(r: Result<Option<(&[u8], &[u8])>, Error<U>>) -> Result<
    Option<KeyVal>,
    Error<U>,
> {
    match r {
        Ok(Some((key, val))) => Ok(Some((key@, val@))),
        Ok(None) => Ok(None),
        Err(e) => Err(e),
    }
}

/// A fault is an error of the source, the destination or the chunk itself, and one of those
/// that it can fail with.
pub proof fn faults<T, U>(r: Result<T, Error<U>>, errors: Set<std::io::Error>)
    ensures
        faulted(r) <==> (r matches Err(Error::Io(IoError::Other(_)))),
        fails_with(r, errors) <==> exists|e: std::io::Error| #[trigger]
            errors.contains(e) && r == Err::<T, Error<U>>(Error::Io(IoError::Other(e))),
{
    if fails_with(r, errors) {
        let e = r->Err_0->Io_0->Other_0;
        assert(errors.contains(e) && r == Err::<T, Error<U>>(Error::Io(IoError::Other(e))));
    }
}

/// An entry that is borrowed has the key and the value that it borrows.
pub proof fn borrowed_entry<U>(key: &[u8], val: &[u8], e: Error<U>)
    ensures
        entry_value(Ok::<_, Error<U>>(Some((key, val)))) == Ok::<_, Error<U>>(Some((key@, val@))),
        entry_value(Ok::<Option<(&[u8], &[u8])>, Error<U>>(None)) == Ok::<
            Option<KeyVal>,
            Error<U>,
        >(None),
        entry_value(Err::<Option<(&[u8], &[u8])>, _>(e)) == Err::<Option<KeyVal>, _>(e),
{
}

/// What a reader that does not fault answers when it is asked for its next entry,
/// and what becomes of it.
pub open spec fn read_relation(
    before: ReaderView,
    r: Result<Option<KeyVal>, Error>,
    after: ReaderView,
) -> bool {
    match step(before) {
        Step::Entry { entry, next } => (r matches Ok(Some(e)) && e == entry) && after == next,
        Step::End => {
            &&& r matches Ok(None)
            &&& after.block == before.block
            &&& after.pending.len() <= before.pending.len()
        },
        Step::EmptyBlock { next } => (r matches Ok(None)) && after == next,
        Step::Truncated { block } => {
            &&& r matches Err(Error::Io(IoError::UnexpectedEof))
            &&& after.block == Some(block)
            &&& after.pending.len() + 8 <= before.pending.len()
        },
        Step::Corrupt { next } => {
            &&& r matches Err(Error::Io(IoError::InvalidData))
            &&& after == next
        },
        Step::Malformed { next } => {
            &&& r matches Err(Error::InvalidBlock)
            &&& after == next
        },
    }
}

/// What a reader answers: the entry of a step that has one, none where there is none left
/// or the next block is empty, and else the error of the step. It is then where the step
/// leaves it.
pub proof fn answers(before: ReaderView, r: Result<Option<KeyVal>, Error>, after: ReaderView)
    requires
        read_relation(before, r, after),
    ensures
        step(before) matches Step::Entry { entry, next } ==> after == next && (r matches Ok(
            Some(e),
        ) && e.0 == entry.0 && e.1 == entry.1),
        step(before) is End ==> (r matches Ok(None)) && after.block == before.block,
        step(before) matches Step::EmptyBlock { next } ==> (r matches Ok(None)) && after == next,
        step(before) matches Step::Truncated { block } ==> (r matches Err(
            Error::Io(IoError::UnexpectedEof),
        )) && after.block == Some(block),
        step(before) matches Step::Corrupt { next } ==> (r matches Err(
            Error::Io(IoError::InvalidData),
        )) && after == next,
        step(before) matches Step::Malformed { next } ==> (r matches Err(Error::InvalidBlock))
            && after == next,
{
}

/// A reader that has come to the end stays there.
pub proof fn end_is_final(before: ReaderView, after: ReaderView)
    requires
        step(before) is End,
        after.compression == before.compression,
        read_relation(before, Ok(None), after),
    ensures
        step(after) is End,
{
}

/// A reader that does not fault yields the first of the entries that it has to
/// yield and is then left with the others. Where it has none, it answers that there
/// is none, or with what its entries end in.
pub proof fn reading_yields_stream(
    before: ReaderView,
    r: Result<Option<KeyVal>, Error>,
    after: ReaderView,
)
    requires
        before.sound(),
        read_relation(before, r, after),
    ensures
        match stream(before).end {
            _ if stream(before).entries.len() > 0 => {
                &&& r matches Ok(Some(entry)) && entry == stream(before).entries[0]
                &&& after.sound()
                &&& stream(after).entries == stream(before).entries.drop_first()
                &&& stream(after).end == stream(before).end
            },
            StreamEnd::End => r matches Ok(None),
            StreamEnd::Truncated => r matches Err(Error::Io(IoError::UnexpectedEof)),
            StreamEnd::Corrupt => r matches Err(Error::Io(IoError::InvalidData)),
            StreamEnd::Malformed => r matches Err(Error::InvalidBlock),
        },
{
    step_progress(before);
    if step(before) is Entry {
        assert(stream(before).entries.drop_first() =~= stream(after).entries);
    }
}

/// A reader of a file that was written yields the entries that it has left, one after
/// the other, and then answers that there is none, however often it is asked.
pub proof fn file_is_read_to_its_end(
    v: ReaderView,
    left: Seq<KeyVal>,
    r: Result<Option<KeyVal>, Error>,
    after: ReaderView,
)
    requires
        has_left(v, left),
        read_relation(v, r, after),
        after.compression == v.compression,
    ensures
        if left.len() > 0 {
            (r matches Ok(Some(entry)) && entry == left[0]) && has_left(after, left.drop_first())
        } else {
            (r matches Ok(None)) && has_left(after, left)
        },
{
    if v.block is Some {
        let (before, entries, blocks) = choose|
            before: Seq<u8>,
            entries: Seq<KeyVal>,
            blocks: Seq<Seq<KeyVal>>,
        | #[trigger]
            reads_at(v, before, entries, blocks) && entries + concat(blocks) == left;
        let bytes = before + encoded(entries);
        if entries.len() > 0 {
            entry_is_read(v, before, entries, blocks, r, after);
            assert(left.drop_first() =~= entries.drop_first() + concat(blocks));
        } else if blocks.len() == 0 {
            assert(encoded(entries) =~= Seq::empty());
            assert(frames(v.compression, blocks) =~= Seq::empty());
            assert(after.pending =~= v.pending);
            assert(reads_at(after, before, entries, blocks));
        } else {
            let first = blocks.first();
            let rest = blocks.drop_first();
            assert(encoded(entries) =~= Seq::empty());
            assert(valid_block(v.compression, blocks[0]));
            assert forall|i: int| #![trigger rest[i]]
                0 <= i < rest.len() implies valid_block(v.compression, rest[i]) by {
                assert(rest[i] == blocks[i + 1]);
            }
            frames_front(v.compression, blocks);
            load_frame(v.compression, encoded(first), frames(v.compression, rest));
            concat_front(blocks);
            let opened = ReaderView {
                block: Some(BlockView { bytes: encoded(first), offset: 0 }),
                pending: frames(v.compression, rest),
                ..v
            };
            encoded_front(first);
            assert(encodable(first[0]));
            entry_round_trip(Seq::empty(), first[0], Seq::empty());
            assert(Seq::<u8>::empty() + encoded(first) =~= encoded(first));
            assert(step(v) == step(opened));
            assert(reads_at(opened, Seq::empty(), first, rest));
            entry_is_read(opened, Seq::empty(), first, rest, r, after);
            assert(left =~= first + concat(rest));
            assert(left.drop_first() =~= first.drop_first() + concat(rest));
        }
    }
}

proof fn entry_is_read(
    v: ReaderView,
    before: Seq<u8>,
    entries: Seq<KeyVal>,
    blocks: Seq<Seq<KeyVal>>,
    r: Result<Option<KeyVal>, Error>,
    after: ReaderView,
)
    requires
        reads_at(v, before, entries, blocks),
        entries.len() > 0,
        step(v) is Entry ==> read_relation(v, r, after),
    ensures
        step(v) is Entry,
        r matches Ok(Some(entry)) && entry == entries[0],
        reads_at(
            after,
            before + encoded_entry(entries[0]),
            entries.drop_first(),
            blocks,
        ),
{
    let first = entries.first();
    let rest = entries.drop_first();
    let bytes = before + encoded(entries);
    encoded_front(entries);
    assert(encodable(entries[0]));
    assert(bytes =~= before + encoded_entry(first) + encoded(rest));
    entry_round_trip(before, first, encoded(rest));
    assert forall|i: int| 0 <= i < rest.len() implies encodable(#[trigger] rest[i]) by {
        assert(rest[i] == entries[i + 1]);
    }
}

/// Reads the entries of one block after the other.
#[derive(Clone)]
pub struct BlockReader {
    compression_type: CompressionType,
    buffer: Vec<u8>,
    offset: usize,
}

impl View for BlockReader {
    type V = BlockView;

    closed spec fn view(&self) -> BlockView {
        BlockView { bytes: self.buffer@, offset: self.offset as int }
    }
}

impl BlockReader {
    /// Whether the offset lies in the block.
    pub open spec fn wf(&self) -> bool {
        0 <= self@.offset <= self@.bytes.len()
    }

    /// The compression of the blocks.
    pub closed spec fn compression(&self) -> CompressionType {
        self.compression_type
    }

    /// Reads a first block, if there is one.
    pub fn new<R: Read>(reader: &mut R, compression_type: CompressionType) -> (r: Result<
        Option<BlockReader>,
        Error,
    >)
        ensures
            final(reader).read_faults().subset_of(old(reader).read_faults()),
            if faulted(r) {
                fails_with(r, old(reader).read_faults())
            } else {
                match load(compression_type, old(reader).pending()) {
                    Load::End => r matches Ok(None),
                    Load::Truncated { .. } => r matches Err(Error::Io(IoError::UnexpectedEof)),
                    Load::Corrupt { .. } => r matches Err(Error::Io(IoError::InvalidData)),
                    Load::Block { bytes, rest } => {
                        &&& r matches Ok(Some(block)) && {
                            &&& block.compression() == compression_type
                            &&& block@ == BlockView { bytes, offset: 0 }
                        }
                        &&& final(reader).pending() == rest
                    },
                }
            },
    {
        let mut block_reader = BlockReader { compression_type, buffer: Vec::new(), offset: 0 };
        match block_reader.read_from(reader) {
            Ok(true) => Ok(Some(block_reader)),
            Ok(false) => Ok(None),
            Err(e) => Err(e),
        }
    }

    /// Reads the next block in place of the current one. Returns `true` if there
    /// was one.
    pub fn read_from<R: Read>(&mut self, reader: &mut R) -> (r: Result<bool, Error>)
        requires
            old(self).wf(),
        ensures
            final(self).wf(),
            final(self).compression() == old(self).compression(),
            final(reader).read_faults().subset_of(old(reader).read_faults()),
            if faulted(r) {
                fails_with(r, old(reader).read_faults())
            } else {
                match load(old(self).compression(), old(reader).pending()) {
                    Load::End => {
                        &&& r matches Ok(false)
                        &&& final(self)@ == old(self)@
                        &&& final(reader).pending().len() <= old(reader).pending().len()
                    },
                    Load::Truncated { len } => {
                        &&& r matches Err(Error::Io(IoError::UnexpectedEof))
                        &&& final(self)@ == (BlockView {
                            bytes: resized(old(self)@.bytes, len as nat),
                            offset: 0,
                        })
                        &&& final(reader).pending().len() + 8 <= old(reader).pending().len()
                    },
                    Load::Corrupt { stored, rest } => {
                        &&& r matches Err(Error::Io(IoError::InvalidData))
                        &&& final(self)@ == (BlockView { bytes: stored, offset: 0 })
                        &&& final(reader).pending() == rest
                    },
                    Load::Block { bytes, rest } => {
                        &&& r matches Ok(true)
                        &&& final(self)@ == (BlockView { bytes, offset: 0 })
                        &&& final(reader).pending() == rest
                    },
                }
            },
    {
        let header = match reader.read_exact(8) {
            Ok(header) => header,
            Err(IoError::UnexpectedEof) => return Ok(false),
            Err(e) => return Err(Error::Io(e)),
        };
        assert(header@.take(8) =~= header@);
        let block_len: u64 = read_u64_be(header.as_slice());
        let len: usize = block_len as usize;

        self.offset = 0;
        let stored = match reader.read_exact(len) {
            Ok(stored) => stored,
            Err(e) => {
                self.resize(len);
                return Err(Error::Io(e));
            },
        };
        proof {
            let pending = old(reader).pending();
            assert(pending.skip(8).take(len as int) =~= pending.subrange(8, 8 + len as int));
            assert(pending.skip(8).skip(len as int) =~= pending.skip(8 + len as int));
        }
        match decompress(self.compression_type, stored) {
            Ok(bytes) => {
                self.buffer = bytes;
                Ok(true)
            },
            Err(stored) => {
                self.buffer = stored;
                Err(Error::Io(IoError::InvalidData))
            },
        }
    }

    /// Gives the block the length of another that could not be read.
    fn resize(&mut self, len: usize)
        requires
            old(self)@.offset == 0,
        ensures
            final(self)@ == (BlockView {
                bytes: resized(old(self)@.bytes, len as nat),
                offset: 0,
            }),
            final(self).compression() == old(self).compression(),
    {
        if len > isize::MAX as usize {
            self.buffer.clear();
        } else {
            self.buffer.resize(len, 0);
        }
        assert(self.buffer@ =~= resized(old(self)@.bytes, len as nat));
    }

    /// Whether there is an entry left in the block, well-formed or not.
    fn has_more(&self) -> (r: bool)
        ensures
            r == (self@.offset != self@.bytes.len()),
    {
        self.buffer.len() != self.offset
    }

    /// Where the key at the offset begins, where its value begins and where that
    /// ends, if an entry stands there.
    fn bounds(&self) -> (r: Option<(usize, usize, usize)>)
        requires
            self.wf(),
        ensures
            match r {
                Some((key, val, end)) => entry_at(self@.bytes, self@.offset) matches Some(at)
                    && at.key == key && at.val == val && at.end == end,
                None => entry_at(self@.bytes, self@.offset) is None,
            },
    {
        let bytes = self.buffer.as_slice();
        let len = bytes.len();
        let rest = slice_subrange(bytes, self.offset, len);
        assert(rest@ =~= bytes@.skip(self.offset as int));
        let (key_len, n) = match varint_decode32(rest) {
            Some((key_len, n)) => (key_len, n),
            None => return None,
        };
        proof {
            varint_decoded_len(rest@);
        }
        let rest2 = slice_subrange(rest, n, rest.len());
        assert(rest2@ =~= rest@.skip(n as int));
        let (val_len, m) = match varint_decode32(rest2) {
            Some((val_len, m)) => (val_len, m),
            None => return None,
        };
        proof {
            varint_decoded_len(rest2@);
        }
        let key: usize = self.offset + n + m;
        if key_len as usize > len - key {
            return None;
        }
        let val: usize = key + key_len as usize;
        if val_len as usize > len - val {
            return None;
        }
        Some((key, val, val + val_len as usize))
    }

    /// Yields the next entry of the block, and `None` at its end.
    pub fn next(&mut self) -> (r: Result<Option<(&[u8], &[u8])>, Error>)
        requires
            old(self).wf(),
            old(self)@.offset == old(self)@.bytes.len() || entry_at(
                old(self)@.bytes,
                old(self)@.offset,
            ) is Some,
        ensures
            final(self).wf(),
            final(self).compression() == old(self).compression(),
            if old(self)@.offset == old(self)@.bytes.len() {
                (r matches Ok(None)) && final(self)@ == old(self)@
            } else {
                let at = entry_at(old(self)@.bytes, old(self)@.offset)->0;
                &&& r matches Ok(Some((key, val))) && {
                    &&& key@ == old(self)@.bytes.subrange(at.key, at.val)
                    &&& val@ == old(self)@.bytes.subrange(at.val, at.end)
                }
                &&& final(self)@ == BlockView { bytes: old(self)@.bytes, offset: at.end }
            },
    {
        if !self.has_more() {
            return Ok(None);
        }
        proof {
            entry_at_bounds(self@.bytes, self@.offset);
        }
        match self.bounds() {
            Some((key, val, end)) => {
                self.offset = end;
                let bytes = self.buffer.as_slice();
                Ok(Some((slice_subrange(bytes, key, val), slice_subrange(bytes, val, end))))
            },
            None => Ok(None),
        }
    }
}

/// Reads the entries of a file that a [`crate::writer::Writer`] has written.
#[derive(Clone)]
pub struct Reader<R> {
    compression_type: CompressionType,
    reader: R,
    current_block: Option<BlockReader>,
}

impl<R: Read> View for Reader<R> {
    type V = ReaderView;

    closed spec fn view(&self) -> ReaderView {
        ReaderView {
            compression: self.compression_type,
            block: match self.current_block {
                Some(block) => Some(block@),
                None => None,
            },
            pending: self.reader.pending(),
        }
    }
}

impl<R: Read> Reader<R> {
    /// Whether the reader is in a state that its methods leave it in.
    pub closed spec fn wf(&self) -> bool {
        self.current_block matches Some(block) ==> block.wf() && block.compression()
            == self.compression_type
    }

    /// The errors that reading can fail with and the bytes do not explain.
    pub closed spec fn read_faults(&self) -> Set<std::io::Error> {
        self.reader.read_faults()
    }

    /// The source that the reader reads from.
    pub closed spec fn source(&self) -> R {
        self.reader
    }

    /// The view is sound where the reader is well-formed.
    pub proof fn wf_sound(&self)
        requires
            self.wf(),
        ensures
            self@.sound(),
            self@.pending == self.source().pending(),
            self.read_faults() == self.source().read_faults(),
    {
    }

    /// Creates a reader of the bytes of a source. An empty source is an empty
    /// file.
    pub fn new(mut reader: R) -> (r: Result<Reader<R>, Error>)
        ensures
            r matches Ok(opened) ==> opened.wf() && opened.read_faults().subset_of(
                reader.read_faults(),
            ),
            if faulted(r) {
                fails_with(r, reader.read_faults())
            } else {
                match open_file(reader.pending()) {
                    Opened::InvalidCompressionType => r matches Err(Error::InvalidCompressionType),
                    Opened::Truncated => r matches Err(Error::Io(IoError::UnexpectedEof)),
                    Opened::Corrupt => r matches Err(Error::Io(IoError::InvalidData)),
                    Opened::Empty { compression } => r matches Ok(opened) && opened@.compression
                        == compression && opened@.block is None,
                    Opened::At { view } => r matches Ok(opened) && opened@ == view,
                }
            },
    {
        let ghost pending = reader.pending();
        let compression: u8 = match reader.read_exact(1) {
            Ok(first) => {
                assert(first@[0] == pending[0]);
                first[0]
            },
            Err(IoError::UnexpectedEof) => CompressionType::Uncompressed.to_u8(),
            Err(e) => return Err(Error::Io(e)),
        };
        assert(reader.pending() =~= file_body(pending));
        let compression_type = match CompressionType::from_u8(compression) {
            Some(compression_type) => compression_type,
            None => return Err(Error::InvalidCompressionType),
        };
        match BlockReader::new(&mut reader, compression_type) {
            Ok(current_block) => Ok(Reader { compression_type, reader, current_block }),
            Err(e) => Err(e),
        }
    }

    /// The compression of the file.
    pub fn compression_type(&self) -> (r: CompressionType)
        ensures
            r == self@.compression,
    {
        self.compression_type
    }

    /// Makes sure that the current block has bytes left, and reads the next block
    /// where it has none. Returns `false` if there is none, or an empty one.
    fn prepare(&mut self) -> (r: Result<bool, Error>)
        requires
            old(self).wf(),
        ensures
            final(self).wf(),
            final(self).read_faults().subset_of(old(self).read_faults()),
            final(self)@.compression == old(self)@.compression,
            if faulted(r) {
                fails_with(r, old(self).read_faults())
            } else {
                match r {
                    Ok(true) => {
                        &&& final(self)@.block matches Some(b) && b.offset != b.bytes.len()
                        &&& step(old(self)@) == entry_step(final(self)@)
                    },
                    Ok(false) => {
                        &&& step(old(self)@) is End || step(old(self)@) is EmptyBlock
                        &&& read_relation(old(self)@, Ok(None), final(self)@)
                    },
                    Err(e) => {
                        &&& step(old(self)@) is Truncated || step(old(self)@) is Corrupt
                        &&& read_relation(old(self)@, Err(e), final(self)@)
                    },
                }
            },
    {
        match &mut self.current_block {
            Some(block) => {
                if block.has_more() {
                    return Ok(true);
                }
                match block.read_from(&mut self.reader) {
                    Ok(true) => Ok(block.has_more()),
                    Ok(false) => Ok(false),
                    Err(e) => Err(e),
                }
            },
            None => Ok(false),
        }
    }

    /// Yields the entries in the order in which they stand in the file.
    pub fn next(&mut self) -> (r: Result<Option<(&[u8], &[u8])>, Error>)
        requires
            old(self).wf(),
            step(old(self)@) !is Malformed,
        ensures
            final(self).wf(),
            final(self).read_faults().subset_of(old(self).read_faults()),
            final(self)@.compression == old(self)@.compression,
            if faulted(r) {
                fails_with(r, old(self).read_faults())
            } else {
                read_relation(old(self)@, entry_value(r), final(self)@)
            },
    {
        match self.prepare() {
            Ok(true) => match &mut self.current_block {
                Some(block) => block.next(),
                None => Ok(None),
            },
            Ok(false) => Ok(None),
            Err(e) => Err(e),
        }
    }

    /// Yields the entries as [`Reader::next`] does, and is
    /// [`Error::InvalidBlock`] where the bytes of the block spell no entry.
    pub fn checked_next(&mut self) -> (r: Result<Option<(&[u8], &[u8])>, Error>)
        requires
            old(self).wf(),
        ensures
            final(self).wf(),
            final(self).read_faults().subset_of(old(self).read_faults()),
            final(self)@.compression == old(self)@.compression,
            if faulted(r) {
                fails_with(r, old(self).read_faults())
            } else {
                read_relation(old(self)@, entry_value(r), final(self)@)
            },
    {
        match self.prepare() {
            Ok(true) => {
                let spelt = match &self.current_block {
                    Some(block) => block.bounds().is_some(),
                    None => false,
                };
                if spelt {
                    self.next()
                } else {
                    Err(Error::InvalidBlock)
                }
            },
            Ok(false) => Ok(None),
            Err(e) => Err(e),
        }
    }

    /// Gives the source back. It stands where reading has come to: to read it from
    /// the start it must be taken back there.
    pub fn into_inner(self) -> (source: R)
        ensures
            source == self.source(),
    {
        self.reader
    }
}

} // verus!
