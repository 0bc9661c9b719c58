//! Sorting more entries than fit into memory.

use crate::compression::{tag_round_trip, CompressionType};
use crate::entries::{
    bound_size, doubled, doubled_bounds, rounded_up, rounding_up, total_size, total_size_push,
    Entries,
};
use crate::error::{converted, Error, IoError};
use crate::format::{
    encoded, file_compression, holds, open_file, step, stream, KeyVal, Opened, ReaderView, Step,
    Stream, StreamEnd,
};
use crate::io::{Chunk, Cursor, Write};
use crate::made::{
    all_stand_for, begins_to_sort_out, comes_from, comes_from_inserted, is_part, is_part_of_more,
    is_part_whole, key_stands_for, made_at_once, made_of, made_of_parts, merge_of_runs, opened_runs,
    parts_stand_for, round_of_runs, rounds_of_runs, runs_of, sorts_out, stands_for,
};
use crate::merge::{
    after_rounds, call_merge, gathered, merges_into, merges_to, opened_sources, total, values,
};
use crate::merger::{
    accepts_all, accepts_all_empty, accepts_all_push, all_compressed_with, all_faults, all_wf,
    merge_into, streams, writes_out, writes_some, MergerBuilder, MergerIter,
};
use crate::order::{
    key_le, key_le_antisymmetric, key_le_reflexive, key_lt, key_lt_le_transitive, same_bytes,
};
use crate::reader::{fails_with, faulted, Reader};
use crate::runs::{
    after_rounds_proper, ascending, gather_sorted, merged_key, same_values, same_values_push,
    sorted, vals_of, vals_of_absent, vals_of_add, vals_of_front,
};
use crate::seqs::{concat, concat_one, concat_push};
use crate::writer::{
    at_least, inserted_all, inserted_all_entries, inserted_all_not_full, refused_too_long, too_long,
    uncompressed_is_read_back, Writer, WriterBuilder, WriterView, DEFAULT_BLOCK_SIZE,
};
use std::borrow::Cow;
use vstd::prelude::*;
use vstd::std_specs::convert::IntoSpec;

verus! {

/// The size of a buffer that may grow, at first: 128 KiB.
pub const INITIAL_SORTER_VEC_SIZE: usize = 131_072;

/// The memory at which entries are dumped unless another is asked for: 1 GiB.
pub const DEFAULT_SORTER_MEMORY: usize = 1_073_741_824;

/// The least memory at which entries can be dumped: 10 MiB.
pub const MIN_SORTER_MEMORY: usize = 10_485_760;

/// The number of chunks at which they are merged unless another is asked for.
pub const DEFAULT_NB_CHUNKS: usize = 25;

/// The least number of chunks at which they can be merged.
pub const MIN_NB_CHUNKS: usize = 1;

/// Whether a failure converts into an error of this library, which no merge function
/// made.
pub open spec fn converts<E: Into<Error>>(e: E) -> bool {
    E::obeys_into_spec() && !(e.into_spec() is Merge)
}

/// Makes the chunks that entries are dumped into.
pub trait ChunkCreation {
    /// What entries are dumped into.
    type Chunk: Chunk;

    /// The failure to make a chunk.
    type Error: Into<Error>;

    /// Whether chunks can be made, and are empty when they are.
    open spec fn sound(&self) -> bool {
        true
    }

    /// Whether making a chunk can answer this.
    open spec fn can_answer(&self, r: Result<Self::Chunk, Self::Error>) -> bool {
        true
    }

    /// Whether making a chunk never fails.
    open spec fn always_creates(&self) -> bool {
        false
    }

    /// The errors that using a chunk that was made can fail with.
    open spec fn chunk_faults(&self) -> Set<std::io::Error> {
        Set::full()
    }

    /// Makes a chunk.
    fn create(&self) -> (r: Result<Self::Chunk, Self::Error>)
        requires
            self.sound(),
        ensures
            match r {
                Ok(chunk) => {
                    &&& chunk.written() == Seq::<u8>::empty()
                    &&& chunk.write_faults().subset_of(self.chunk_faults())
                },
                Err(e) => converts(e) && !self.always_creates(),
            },
            self.can_answer(r),
    ;
}

/// Whether making a chunk can succeed.
pub open spec fn can_create<CC: ChunkCreation>(creation: CC) -> bool {
    exists|chunk: CC::Chunk| #[trigger]
        call_ensures(CC::create, (&creation,), Ok::<CC::Chunk, CC::Error>(chunk))
}

/// Whether a result is an error that making a chunk can fail with.
pub open spec fn creation_failure<CC: ChunkCreation, T, U>(
    creation: CC,
    r: Result<T, Error<U>>,
) -> bool {
    &&& !creation.always_creates()
    &&& exists|e: CC::Error|
        {
            &&& #[trigger] call_ensures(CC::create, (&creation,), Err::<CC::Chunk, CC::Error>(e))
            &&& r == Err::<T, Error<U>>(converted::<U>(e.into_spec()))
        }
}

/// Whether a result is a failure of a chunk that was made.
pub open spec fn chunk_failure<CC: ChunkCreation, T, U>(
    creation: CC,
    r: Result<T, Error<U>>,
) -> bool {
    can_create(creation) && fails_with(r, creation.chunk_faults())
}

/// Makes chunks in memory.
#[derive(Debug, Default, Clone, Copy)]
pub struct CursorVec;

impl ChunkCreation for CursorVec {
    type Chunk = Cursor;

    type Error = IoError;

    open spec fn sound(&self) -> bool {
        true
    }

    open spec fn always_creates(&self) -> bool {
        true
    }

    open spec fn chunk_faults(&self) -> Set<std::io::Error> {
        Set::empty()
    }

    fn create(&self) -> (r: Result<Cursor, IoError>) {
        Ok(Cursor::new())
    }
}

/// A function that makes chunks.
impl<C: Chunk, E: Into<Error>, F: Fn() -> Result<C, E>> ChunkCreation for F {
    type Chunk = C;

    type Error = E;

    open spec fn sound(&self) -> bool {
        &&& call_requires(*self, ())
        &&& forall|r: Result<C, E>| #[trigger]
            call_ensures(*self, (), r) ==> match r {
                Ok(chunk) => chunk.written() == Seq::<u8>::empty(),
                Err(e) => converts(e),
            }
    }

    open spec fn can_answer(&self, r: Result<C, E>) -> bool {
        call_ensures(*self, (), r)
    }

    open spec fn always_creates(&self) -> bool {
        forall|r: Result<C, E>| #[trigger] call_ensures(*self, (), r) ==> r is Ok
    }

    open spec fn chunk_faults(&self) -> Set<std::io::Error> {
        Set::new(
            |e: std::io::Error|
                exists|chunk: C|
                    {
                        &&& #[trigger] call_ensures(*self, (), Ok::<C, E>(chunk))
                        &&& chunk.write_faults().contains(e)
                    },
        )
    }

    fn create(&self) -> (r: Result<C, E>) {
        self()
    }
}

/// A function that can be called, and makes empty chunks where it does not fail, can
/// make the chunks of a sorter. What it answers is what comes of making one: it always
/// makes one where it does not fail, and cannot make any where it always fails. Errors
/// that none of its chunks can fail with do not come of them.
pub proof fn function_makes_chunks<C: Chunk, E: Into<Error>, F: Fn() -> Result<C, E>>(f: F)
    requires
        call_requires(f, ()),
        forall|r: Result<C, E>| #[trigger]
            call_ensures(f, (), r) ==> match r {
                Ok(chunk) => chunk.written() == Seq::<u8>::empty(),
                Err(e) => converts(e),
            },
    ensures
        f.sound(),
        forall|r: Result<C, E>| #[trigger]
            call_ensures(F::create, (&f,), r) ==> call_ensures(f, (), r),
        (forall|r: Result<C, E>| #[trigger] call_ensures(f, (), r) ==> r is Err)
            ==> !can_create(f),
        (forall|r: Result<C, E>| #[trigger] call_ensures(f, (), r) ==> r is Ok)
            ==> f.always_creates(),
        forall|faults: Set<std::io::Error>|
            (forall|chunk: C| #[trigger]
                call_ensures(f, (), Ok::<C, E>(chunk)) ==> chunk.write_faults().subset_of(faults))
                ==> #[trigger] f.chunk_faults().subset_of(faults),
{
}

/// The chunks of a sorter that is not told otherwise.
pub type DefaultChunkCreation = CursorVec;

/// The settings of a sorter.
#[derive(Debug, Clone, Copy)]
pub struct SorterSettings {
    /// The size of the buffer at which it is dumped rather than grown.
    pub dump_threshold: usize,
    /// Whether the buffer may grow.
    pub allow_realloc: bool,
    /// The number of chunks at which they are merged into one.
    pub max_nb_chunks: usize,
    /// The compression of the chunks.
    pub chunk_compression_type: CompressionType,
    /// The level of that compression.
    pub chunk_compression_level: u32,
}

/// How a sorter is to sort.
#[derive(Debug, Clone, Copy)]
pub struct SorterBuilder<MF, CC> {
    settings: SorterSettings,
    chunk_creation: CC,
    merge: MF,
}

/// The settings of a sorter that is not told otherwise.
pub open spec fn default_settings() -> SorterSettings {
    SorterSettings {
        dump_threshold: DEFAULT_SORTER_MEMORY,
        allow_realloc: true,
        max_nb_chunks: DEFAULT_NB_CHUNKS,
        chunk_compression_type: CompressionType::Uncompressed,
        chunk_compression_level: 0,
    }
}

impl<MF> SorterBuilder<MF, DefaultChunkCreation> {
    /// A sorter with the default settings.
    pub fn new(merge: MF) -> (builder: Self)
        ensures
            builder.settings() == default_settings(),
            builder.creation() == CursorVec,
            builder.merge_fn() == merge,
    {
        SorterBuilder {
            settings: SorterSettings {
                dump_threshold: DEFAULT_SORTER_MEMORY,
                allow_realloc: true,
                max_nb_chunks: DEFAULT_NB_CHUNKS,
                chunk_compression_type: CompressionType::Uncompressed,
                chunk_compression_level: 0,
            },
            chunk_creation: CursorVec,
            merge,
        }
    }
}

impl<MF, CC> SorterBuilder<MF, CC> {
    /// The settings.
    pub closed spec fn settings(&self) -> SorterSettings {
        self.settings
    }

    /// What makes the chunks.
    pub closed spec fn creation(&self) -> CC {
        self.chunk_creation
    }

    /// The merge function.
    pub closed spec fn merge_fn(&self) -> MF {
        self.merge
    }

    /// Whether all but the settings is as in another builder.
    pub open spec fn same_parts(&self, other: &Self) -> bool {
        self.creation() == other.creation() && self.merge_fn() == other.merge_fn()
    }

    /// The amount of memory to reach that triggers a dump from memory to a chunk.
    pub fn dump_threshold(&mut self, memory: usize) -> (r: &mut Self)
        ensures
            (*r).settings() == (SorterSettings {
                dump_threshold: at_least(memory, MIN_SORTER_MEMORY),
                ..old(self).settings()
            }),
            memory >= MIN_SORTER_MEMORY ==> (*r).settings().dump_threshold == memory,
            memory < MIN_SORTER_MEMORY ==> (*r).settings().dump_threshold == MIN_SORTER_MEMORY,
            (*r).same_parts(old(self)),
            *final(self) == *final(r),
    {
        self.settings.dump_threshold = if memory < MIN_SORTER_MEMORY {
            MIN_SORTER_MEMORY
        } else {
            memory
        };
        self
    }

    /// Whether the sorter is allowed to reallocate its buffer.
    ///
    /// Reallocating needs more memory while it lasts; where it is not allowed, the
    /// sorter uses the memory of the dump threshold at all times.
    pub fn allow_realloc(&mut self, allow: bool) -> (r: &mut Self)
        ensures
            (*r).settings() == (SorterSettings { allow_realloc: allow, ..old(self).settings() }),
            (*r).same_parts(old(self)),
            *final(self) == *final(r),
    {
        self.settings.allow_realloc = allow;
        self
    }

    /// The number of chunks that, once reached, are merged into one. Merging can
    /// reduce the disk usage.
    pub fn max_nb_chunks(&mut self, nb_chunks: usize) -> (r: &mut Self)
        ensures
            (*r).settings() == (SorterSettings {
                max_nb_chunks: at_least(nb_chunks, MIN_NB_CHUNKS),
                ..old(self).settings()
            }),
            nb_chunks >= MIN_NB_CHUNKS ==> (*r).settings().max_nb_chunks == nb_chunks,
            nb_chunks < MIN_NB_CHUNKS ==> (*r).settings().max_nb_chunks == MIN_NB_CHUNKS,
            (*r).same_parts(old(self)),
            *final(self) == *final(r),
    {
        self.settings.max_nb_chunks = if nb_chunks < MIN_NB_CHUNKS {
            MIN_NB_CHUNKS
        } else {
            nb_chunks
        };
        self
    }

    /// The compression of the chunks.
    pub fn chunk_compression_type(&mut self, compression: CompressionType) -> (r: &mut Self)
        ensures
            (*r).settings() == (SorterSettings {
                chunk_compression_type: compression,
                ..old(self).settings()
            }),
            (*r).same_parts(old(self)),
            *final(self) == *final(r),
    {
        self.settings.chunk_compression_type = compression;
        self
    }

    /// The level of the compression of the chunks.
    pub fn chunk_compression_level(&mut self, level: u32) -> (r: &mut Self)
        ensures
            (*r).settings() == (SorterSettings {
                chunk_compression_level: level,
                ..old(self).settings()
            }),
            (*r).same_parts(old(self)),
            *final(self) == *final(r),
    {
        self.settings.chunk_compression_level = level;
        self
    }

    /// What makes the chunks.
    pub fn chunk_creation<CC2>(self, creation: CC2) -> (r: SorterBuilder<MF, CC2>)
        ensures
            r.settings() == self.settings(),
            r.creation() == creation,
            r.merge_fn() == self.merge_fn(),
    {
        SorterBuilder { settings: self.settings, chunk_creation: creation, merge: self.merge }
    }
}

impl<MF, CC, U> SorterBuilder<MF, CC> where
    MF: for <'a>Fn(&[u8], &[Cow<'a, [u8]>]) -> Result<Cow<'a, [u8]>, U>,
    CC: ChunkCreation,
 {
    /// The size of the buffer at first.
    pub open spec fn initial_capacity(&self) -> nat {
        rounded_up(
            if self.settings().allow_realloc {
                INITIAL_SORTER_VEC_SIZE as nat
            } else {
                self.settings().dump_threshold as nat
            },
        )
    }

    /// Creates a sorter, with nothing inserted.
    pub fn build(self) -> (sorter: Sorter<MF, CC>)
        requires
            total(self.merge_fn()),
            self.creation().sound(),
            self.initial_capacity() <= isize::MAX,
        ensures
            sorter.wf(),
            sorter@ == Seq::<KeyVal>::empty(),
            sorter.settings() == self.settings(),
            sorter.creation() == self.creation(),
            sorter.merge_fn() == self.merge_fn(),
            sorter.runs() == Seq::<Seq<KeyVal>>::empty(),
            sorter.in_memory() == Seq::<KeyVal>::empty(),
            sorter.dumped() == Seq::<KeyVal>::empty(),
            sorter.has_few_chunks(),
            sorter.capacity() == self.initial_capacity(),
            sorter.used() == 0,
    {
        let capacity: usize = if self.settings.allow_realloc {
            INITIAL_SORTER_VEC_SIZE
        } else {
            self.settings.dump_threshold
        };
        let sorter = Sorter {
            chunks: Vec::new(),
            entries: Entries::with_capacity(capacity),
            settings: self.settings,
            chunk_creation: self.chunk_creation,
            merge: self.merge,
            runs: Ghost(Seq::empty()),
            shares: Ghost(Seq::empty()),
            recent: Ghost(Seq::empty()),
        };
        assert(sorter@ =~= Seq::empty());
        sorter
    }
}

/// Sorts entries, and merges the values of equal keys.
///
/// Entries are held in memory up to a threshold and are then dumped, sorted and
/// merged, into a chunk. Chunks are merged into one when there are many of them.
pub struct Sorter<MF, CC: ChunkCreation> {
    chunks: Vec<CC::Chunk>,
    entries: Entries,
    settings: SorterSettings,
    chunk_creation: CC,
    merge: MF,
    /// The entries of each chunk.
    runs: Ghost<Seq<Seq<KeyVal>>>,
    /// What was inserted and dumped into each chunk.
    shares: Ghost<Seq<Seq<KeyVal>>>,
    /// What was inserted and is still in memory.
    recent: Ghost<Seq<KeyVal>>,
}

/// Whether an error is one that dumping and merging chunks of what was inserted can
/// end in where no chunk fails: the merge function fails, or it makes a value that
/// is too long for a chunk.
pub open spec fn merge_fails<MF, U>(
    merge: MF,
    compression: CompressionType,
    inserted: Seq<KeyVal>,
    e: Error<U>,
) -> bool where MF: for <'a>Fn(&[u8], &[Cow<'a, [u8]>]) -> Result<Cow<'a, [u8]>, U> {
    match e {
        Error::Merge(e) => exists|key: Seq<u8>, vals: Seq<Seq<u8>>|
            {
                &&& #[trigger] merges_to(merge, key, vals, Err::<Seq<u8>, U>(e))
                &&& comes_from(merge, key, vals, vals_of(inserted, key))
            },
        Error::Io(IoError::InvalidInput) => exists|
            key: Seq<u8>,
            part: Seq<Seq<u8>>,
            val: Seq<u8>,
        |
            {
                &&& #[trigger] made_of(merge, key, part, val)
                &&& is_part(part, vals_of(inserted, key))
                &&& too_long(compression, DEFAULT_BLOCK_SIZE, (key, val))
            },
        _ => false,
    }
}

/// Failing on what was inserted is failing on more than that.
proof fn merge_fails_on_more<MF, U>(
    merge: MF,
    compression: CompressionType,
    inserted: Seq<KeyVal>,
    e: Error<U>,
    before: Seq<KeyVal>,
    more: Seq<KeyVal>,
) where MF: for <'a>Fn(&[u8], &[Cow<'a, [u8]>]) -> Result<Cow<'a, [u8]>, U>
    requires
        merge_fails(merge, compression, inserted, e),
        forall|key: Seq<u8>| #[trigger]
            vals_of(more, key) == vals_of(before, key) + vals_of(inserted, key),
    ensures
        merge_fails(merge, compression, more, e),
{
    match e {
        Error::Merge(u) => {
            let (key, vals) = choose|key: Seq<u8>, vals: Seq<Seq<u8>>|
                {
                    &&& #[trigger] merges_to(merge, key, vals, Err::<Seq<u8>, U>(u))
                    &&& comes_from(merge, key, vals, vals_of(inserted, key))
                };
            let parts = choose|parts: Seq<Seq<Seq<u8>>>|
                {
                    &&& #[trigger] parts_stand_for(merge, key, parts, vals)
                    &&& is_part(concat(parts), vals_of(inserted, key))
                };
            is_part_of_more(
                concat(parts),
                vals_of(before, key),
                vals_of(inserted, key),
                Seq::empty(),
            );
            assert(vals_of(more, key) + Seq::empty() =~= vals_of(more, key));
            assert(comes_from(merge, key, vals, vals_of(more, key)));
        },
        Error::Io(IoError::InvalidInput) => {
            let (key, part, val) = choose|key: Seq<u8>, part: Seq<Seq<u8>>, val: Seq<u8>|
                {
                    &&& #[trigger] made_of(merge, key, part, val)
                    &&& is_part(part, vals_of(inserted, key))
                    &&& too_long(compression, DEFAULT_BLOCK_SIZE, (key, val))
                };
            is_part_of_more(part, vals_of(before, key), vals_of(inserted, key), Seq::empty());
            assert(vals_of(more, key) + Seq::empty() =~= vals_of(more, key));
        },
        _ => {},
    }
}

/// Whether merging sources sorts what was inserted: they stand for it, and whatever
/// the merge yields is all of that, sorted and merged.
pub open spec fn sorts_into<MF, U>(
    merge: MF,
    sources: Seq<Stream>,
    inserted: Seq<KeyVal>,
) -> bool where MF: for <'a>Fn(&[u8], &[Cow<'a, [u8]>]) -> Result<Cow<'a, [u8]>, U> {
    &&& runs_of(merge, sources, inserted)
    &&& forall|out: Seq<KeyVal>| #[trigger]
        merges_into(merge, sources, out) ==> sorts_out(merge, out, inserted)
}

/// Whether an error is what writing the sorted entries into a writer stops with
/// where nothing faults: the merge function fails on values that come from those
/// inserted, or the writer cannot take what it made of them; and `after` is what
/// becomes of the writer.
pub open spec fn sort_stops<MF, U>(
    merge: MF,
    inserted: Seq<KeyVal>,
    w: WriterView,
    e: Error<U>,
    after: WriterView,
) -> bool where MF: for <'a>Fn(&[u8], &[Cow<'a, [u8]>]) -> Result<Cow<'a, [u8]>, U> {
    match e {
        Error::Merge(e) => after == w && exists|key: Seq<u8>, vals: Seq<Seq<u8>>|
            {
                &&& #[trigger] merges_to(merge, key, vals, Err::<Seq<u8>, U>(e))
                &&& comes_from(merge, key, vals, vals_of(inserted, key))
            },
        Error::Io(IoError::InvalidInput) => exists|
            key: Seq<u8>,
            part: Seq<Seq<u8>>,
            val: Seq<u8>,
        |
            {
                &&& #[trigger] made_of(merge, key, part, val)
                &&& is_part(part, vals_of(inserted, key))
                &&& !w.accepts((key, val))
                &&& after == w.refused((key, val))
            },
        _ => false,
    }
}

/// Whether `r` is what writing the sorted entries into a writer answers, where
/// nothing faults, and `after` is what becomes of the writer.
pub open spec fn sort_write_relation<MF, U>(
    merge: MF,
    inserted: Seq<KeyVal>,
    before: WriterView,
    r: Result<(), Error<U>>,
    after: WriterView,
) -> bool where MF: for <'a>Fn(&[u8], &[Cow<'a, [u8]>]) -> Result<Cow<'a, [u8]>, U> {
    match r {
        Ok(()) => exists|out: Seq<KeyVal>|
            {
                &&& #[trigger] sorts_out(merge, out, inserted)
                &&& after == inserted_all(before, out)
            },
        Err(e) => exists|out: Seq<KeyVal>|
            {
                &&& #[trigger] begins_to_sort_out(merge, out, inserted)
                &&& sort_stops(merge, inserted, inserted_all(before, out), e, after)
            },
    }
}

/// A merge of runs into a writer stops with no error but those that what was
/// inserted explains.
proof fn merge_of_runs_stops<MF, U>(
    merge: MF,
    sources: Seq<Stream>,
    inserted: Seq<KeyVal>,
    w: WriterView,
    out: Seq<KeyVal>,
    e: Error<U>,
    after: WriterView,
) where MF: for <'a>Fn(&[u8], &[Cow<'a, [u8]>]) -> Result<Cow<'a, [u8]>, U>
    requires
        runs_of(merge, sources, inserted),
        writes_out(merge, sources, w, out, Err::<(), _>(e), after),
    ensures
        begins_to_sort_out(merge, out, inserted),
        sort_stops(merge, inserted, inserted_all(w, out), e, after),
{
    rounds_of_runs(merge, sources, inserted, out);
    let left = after_rounds(sources, out.len());
    after_rounds_proper(sources, out.len());
    gather_sorted(left, Seq::empty(), false);
    let g = gathered(left);
    round_of_runs(merge, sources, inserted, out.len());
    match e {
        Error::Io(IoError::InvalidInput) => {
            let now = inserted_all(w, out);
            let val = choose|val: Seq<u8>|
                {
                    &&& #[trigger] merges_to(merge, g.key, g.vals, Ok::<_, U>(val))
                    &&& !now.accepts((g.key, val))
                    &&& after == now.refused((g.key, val))
                };
            let parts = choose|parts: Seq<Seq<Seq<u8>>>|
                {
                    &&& #[trigger] parts_stand_for(merge, g.key, parts, g.vals)
                    &&& is_part(concat(parts), vals_of(inserted, g.key))
                };
            made_of_parts(merge, g.key, parts, g.vals, val);
        },
        _ => {},
    }
}

/// A merge of runs into a writer writes what was inserted, sorted and merged, or stops
/// with an error that what was inserted explains.
proof fn runs_write_sorts<MF, U>(
    merge: MF,
    sources: Seq<Stream>,
    inserted: Seq<KeyVal>,
    w: WriterView,
    r: Result<(), Error<U>>,
    after: WriterView,
) where MF: for <'a>Fn(&[u8], &[Cow<'a, [u8]>]) -> Result<Cow<'a, [u8]>, U>
    requires
        runs_of(merge, sources, inserted),
        exists|out: Seq<KeyVal>| #[trigger] writes_out(merge, sources, w, out, r, after),
    ensures
        sort_write_relation(merge, inserted, w, r, after),
{
    let out = choose|out: Seq<KeyVal>| #[trigger] writes_out(merge, sources, w, out, r, after);
    if r is Ok {
        merge_of_runs(merge, sources, inserted, out);
    } else {
        merge_of_runs_stops(merge, sources, inserted, w, out, r->Err_0, after);
    }
}

impl<MF, CC: ChunkCreation> View for Sorter<MF, CC> {
    type V = Seq<KeyVal>;

    open spec fn view(&self) -> Seq<KeyVal> {
        self.dumped() + self.in_memory()
    }
}

impl<MF, CC: ChunkCreation> Sorter<MF, CC> {
    /// A builder with the default settings.
    pub fn builder(merge: MF) -> (builder: SorterBuilder<MF, DefaultChunkCreation>)
        ensures
            builder.settings() == default_settings(),
            builder.creation() == CursorVec,
            builder.merge_fn() == merge,
    {
        SorterBuilder::new(merge)
    }

    /// The settings.
    pub closed spec fn settings(&self) -> SorterSettings {
        self.settings
    }

    /// What makes the chunks.
    pub closed spec fn creation(&self) -> CC {
        self.chunk_creation
    }

    /// The merge function.
    pub closed spec fn merge_fn(&self) -> MF {
        self.merge
    }

    /// The entries of each chunk.
    pub closed spec fn runs(&self) -> Seq<Seq<KeyVal>> {
        self.runs@
    }

    /// The bytes of each chunk.
    pub closed spec fn chunk_bytes(&self) -> Seq<Seq<u8>> {
        self.chunks@.map_values(|chunk: CC::Chunk| chunk.written())
    }

    /// How many chunks there are.
    pub open spec fn chunk_count(&self) -> nat {
        self.runs().len()
    }

    /// What was inserted and dumped.
    pub closed spec fn dumped(&self) -> Seq<KeyVal> {
        concat(self.shares@)
    }

    /// What was inserted and not dumped yet.
    pub closed spec fn in_memory(&self) -> Seq<KeyVal> {
        self.recent@
    }

    /// How many bytes the buffer has.
    pub closed spec fn capacity(&self) -> nat {
        self.entries.capacity()
    }

    /// How many bytes of the buffer are taken.
    pub closed spec fn used(&self) -> nat {
        self.entries.used()
    }

    /// Whether an entry fits into the buffer as it is.
    pub open spec fn fits(&self, key: Seq<u8>, val: Seq<u8>) -> bool {
        self.used() + Entries::size_of(key, val) <= self.capacity()
    }

    /// Whether the buffer is dumped before an entry is inserted: the entry does not
    /// fit, and the buffer may not grow or has reached the threshold.
    pub open spec fn dumps(&self, key: Seq<u8>, val: Seq<u8>) -> bool {
        !self.fits(key, val) && (self.capacity() >= self.settings().dump_threshold
            || !self.settings().allow_realloc)
    }

    /// How many bytes of the buffer have to be taken to hold an entry as well.
    pub open spec fn need(&self, key: Seq<u8>, val: Seq<u8>) -> nat {
        Entries::size_of(key, val) + if self.dumps(key, val) {
            0
        } else {
            self.used()
        }
    }

    /// The size of the buffer once an entry is inserted.
    pub open spec fn capacity_for(&self, key: Seq<u8>, val: Seq<u8>) -> nat {
        if self.need(key, val) <= self.capacity() {
            self.capacity()
        } else {
            doubled(self.capacity(), self.need(key, val))
        }
    }

    /// Whether an entry can be inserted: its lengths are numbers of 32 bits, and the
    /// buffer need not grow beyond what a machine can allocate.
    pub open spec fn can_take(&self, key: Seq<u8>, val: Seq<u8>) -> bool {
        &&& key.len() <= u32::MAX
        &&& val.len() <= u32::MAX
        &&& self.need(key, val) <= self.capacity() || (self.capacity() > 0 && self.capacity_for(
            key,
            val,
        ) <= isize::MAX)
    }

    /// Whether there are fewer chunks than are merged into one, or one at most.
    pub open spec fn has_few_chunks(&self) -> bool {
        self.chunk_count() < self.settings().max_nb_chunks || self.chunk_count() <= 1
    }

    /// A buffer that may not grow, or has reached the threshold, keeps its size for
    /// every entry that fits into it when it is empty.
    pub proof fn capacity_is_kept(&self, key: Seq<u8>, val: Seq<u8>)
        requires
            !self.settings().allow_realloc || self.capacity() >= self.settings().dump_threshold,
            Entries::size_of(key, val) <= self.capacity(),
        ensures
            self.capacity_for(key, val) == self.capacity(),
    {
    }

    /// Whether all but the entries and the chunks is as in another sorter.
    pub open spec fn same_parts(&self, other: &Self) -> bool {
        &&& self.settings() == other.settings()
        &&& self.creation() == other.creation()
        &&& self.merge_fn() == other.merge_fn()
    }

    /// Whether the entries and the chunks are as in another sorter.
    pub open spec fn same_entries(&self, other: &Self) -> bool {
        &&& self.runs() == other.runs()
        &&& self.dumped() == other.dumped()
        &&& self.in_memory() == other.in_memory()
        &&& self.capacity() == other.capacity()
        &&& self.used() == other.used()
    }

    /// Whether the buffer has grown to the threshold.
    fn threshold_exceeded(&self) -> (r: bool)
        ensures
            r == (self.capacity() >= self.settings().dump_threshold),
    {
        self.entries.memory_usage() >= self.settings.dump_threshold
    }
}

impl<MF, CC, U> Sorter<MF, CC> where
    MF: for <'a>Fn(&[u8], &[Cow<'a, [u8]>]) -> Result<Cow<'a, [u8]>, U>,
    CC: ChunkCreation,
 {
    /// Whether each chunk is a file that stands for what was dumped into it, and
    /// the buffer holds what was inserted since.
    pub closed spec fn wf(&self) -> bool {
        &&& total(self.merge)
        &&& self.chunk_creation.sound()
        &&& self.entries.wf()
        &&& same_values(self.entries@, self.recent@)
        &&& self.entries.used() == total_size(self.recent@)
        &&& chunks_hold(self.settings.chunk_compression_type, self.chunks@, self.runs@)
        &&& runs_stand_for(self.merge, self.runs@, self.shares@)
        &&& chunks_fail_with(self.chunks@, self.chunk_creation.chunk_faults())
    }

    /// What is taken of the buffer is what the entries in memory take up.
    pub proof fn used_by_entries(&self)
        requires
            self.wf(),
        ensures
            self.used() == total_size(self.in_memory()),
    {
    }

    /// Each chunk is a file of the compression that was asked for, and holds its run.
    pub proof fn wf_chunks(&self)
        requires
            self.wf(),
        ensures
            self.chunk_bytes().len() == self.runs().len(),
            forall|i: int| #![trigger self.runs()[i]]
                0 <= i < self.runs().len() ==> {
                    &&& self.chunk_bytes()[i] == chunk_file(
                        self.settings().chunk_compression_type,
                        self.runs()[i],
                    )
                    &&& holds(self.chunk_bytes()[i], self.runs()[i])
                },
    {
        assert forall|i: int| #![trigger self.runs()[i]] 0 <= i < self.runs().len() implies {
            &&& self.chunk_bytes()[i] == chunk_file(
                self.settings().chunk_compression_type,
                self.runs()[i],
            )
            &&& holds(self.chunk_bytes()[i], self.runs()[i])
        } by {
            assert(self.chunk_bytes()[i] == self.chunks@[i].written());
        }
    }
}

/// Whether chunks are files of a compression, each of which holds its run.
spec fn chunks_hold<C: Chunk>(
    compression: CompressionType,
    chunks: Seq<C>,
    runs: Seq<Seq<KeyVal>>,
) -> bool {
    &&& runs.len() == chunks.len()
    &&& forall|i: int| #![trigger chunks[i]]
        0 <= i < chunks.len() ==> chunks[i].written() == chunk_file(compression, runs[i]) && holds(
            chunks[i].written(),
            runs[i],
        )
}

/// Whether runs stand for shares of what was inserted.
spec fn runs_stand_for<MF, U>(
    merge: MF,
    runs: Seq<Seq<KeyVal>>,
    shares: Seq<Seq<KeyVal>>,
) -> bool where MF: for <'a>Fn(&[u8], &[Cow<'a, [u8]>]) -> Result<Cow<'a, [u8]>, U> {
    &&& runs.len() == shares.len()
    &&& forall|i: int| #![trigger runs[i]]
        0 <= i < runs.len() ==> stands_for(merge, runs[i], shares[i])
}

/// Whether chunks fail with none but these errors.
spec fn chunks_fail_with<C: Chunk>(chunks: Seq<C>, faults: Set<std::io::Error>) -> bool {
    forall|i: int| #![trigger chunks[i]]
        0 <= i < chunks.len() ==> chunks[i].write_faults().subset_of(faults)
}

/// What a writer into a chunk has written before anything is inserted.
pub open spec fn blank_chunk(compression: CompressionType) -> WriterView {
    WriterView {
        start: Seq::empty(),
        compression,
        block_size: DEFAULT_BLOCK_SIZE,
        blocks: Seq::empty(),
        current: Seq::empty(),
    }
}

/// The bytes of a chunk that holds a run.
#[verifier::opaque]
pub open spec fn chunk_file(compression: CompressionType, run: Seq<KeyVal>) -> Seq<u8> {
    inserted_all(blank_chunk(compression), run).finished().bytes()
}

/// The compression of a chunk is the one that was asked for.
pub proof fn chunk_file_compression(compression: CompressionType, run: Seq<KeyVal>)
    ensures
        file_compression(chunk_file(compression, run)) == Some(compression),
{
    reveal(chunk_file);
    inserted_all_entries(blank_chunk(compression), run);
    tag_round_trip(compression);
}

/// The runs of chunks, as what reading the chunks yields.
pub open spec fn run_streams(runs: Seq<Seq<KeyVal>>) -> Seq<Stream> {
    runs.map_values(|run: Seq<KeyVal>| Stream { entries: run, end: StreamEnd::End })
}

/// The sources of a merge of runs: those that have an entry.
pub open spec fn run_sources(runs: Seq<Seq<KeyVal>>) -> Seq<Stream> {
    opened_sources(run_streams(runs))->Ok_0
}

/// What reading runs yields stands for what the runs do.
proof fn run_streams_stand_for<MF, U>(
    merge: MF,
    runs: Seq<Seq<KeyVal>>,
    shares: Seq<Seq<KeyVal>>,
) where MF: for <'a>Fn(&[u8], &[Cow<'a, [u8]>]) -> Result<Cow<'a, [u8]>, U>
    requires
        runs_stand_for(merge, runs, shares),
    ensures
        all_stand_for(merge, run_streams(runs), shares),
        forall|i: int| #![trigger run_streams(runs)[i]]
            0 <= i < run_streams(runs).len() ==> run_streams(runs)[i].end is End,
{
    let all = run_streams(runs);
    assert forall|i: int| #![trigger all[i]] 0 <= i < all.len() implies stands_for(
        merge,
        all[i].entries,
        shares[i],
    ) by {
        assert(stands_for(merge, runs[i], shares[i]));
    }
}

/// Opens chunks to read them.
fn open_chunks<C: Chunk>(
    chunks: Vec<C>,
    Ghost(compression): Ghost<CompressionType>,
    Ghost(runs): Ghost<Seq<Seq<KeyVal>>>,
    Ghost(faults): Ghost<Set<std::io::Error>>,
) -> (r: Result<Vec<Reader<C>>, Error>)
    requires
        chunks_hold(compression, chunks@, runs),
        chunks_fail_with(chunks@, faults),
    ensures
        match r {
            Ok(readers) => {
                &&& all_wf(readers@)
                &&& streams(readers@) == run_streams(runs)
                &&& all_compressed_with(readers@, compression)
                &&& all_faults(readers@).subset_of(faults)
            },
            Err(e) => fails_with(r, faults),
        },
{
    let mut readers: Vec<Reader<C>> = Vec::new();
    let mut rest = chunks;
    let ghost mut n: int = 0;
    assert(chunks@.skip(0) =~= chunks@);
    while rest.len() > 0
        invariant
            0 <= n <= chunks@.len(),
            rest@ == chunks@.skip(n),
            chunks_hold(compression, chunks@, runs),
            chunks_fail_with(chunks@, faults),
            readers@.len() == n,
            all_wf(readers@),
            forall|i: int| #![trigger readers@[i]]
                0 <= i < readers@.len() ==> stream(readers@[i]@) == (Stream {
                    entries: runs[i],
                    end: StreamEnd::End,
                }),
            all_compressed_with(readers@, compression),
            all_faults(readers@).subset_of(faults),
        decreases rest@.len(),
    {
        let mut chunk = rest.remove(0);
        proof {
            assert(chunk == chunks@[n]);
            assert(rest@ =~= chunks@.skip(n + 1));
            chunk_file_compression(compression, runs[n]);
        }
        match chunk.rewind() {
            Ok(()) => {},
            Err(e) => return Err(Error::Io(e)),
        }
        match Reader::new(chunk) {
            Ok(reader) => {
                proof {
                    reader.wf_sound();
                    if reader@.block is None {
                        assert(stream(reader@).entries =~= runs[n]);
                    }
                }
                readers.push(reader);
            },
            Err(e) => return Err(e),
        }
        proof {
            n = n + 1;
        }
    }
    assert(streams(readers@) =~= run_streams(runs));
    Ok(readers)
}

/// Whether a run holds what the merge function makes of entries, key by key.
pub open spec fn merged_from<MF, U>(
    merge: MF,
    run: Seq<KeyVal>,
    entries: Seq<KeyVal>,
) -> bool where MF: for <'a>Fn(&[u8], &[Cow<'a, [u8]>]) -> Result<Cow<'a, [u8]>, U> {
    &&& sorted(run)
    &&& forall|k: Seq<u8>| #[trigger]
        merged_key(merge, k, vals_of(entries, k), vals_of(run, k))
}

/// One more key, greater than those before, with what the merge function makes of
/// its values.
proof fn merged_from_push<MF, U>(
    merge: MF,
    run: Seq<KeyVal>,
    entries: Seq<KeyVal>,
    group: Seq<KeyVal>,
    key: Seq<u8>,
    val: Seq<u8>,
) where MF: for <'a>Fn(&[u8], &[Cow<'a, [u8]>]) -> Result<Cow<'a, [u8]>, U>
    requires
        merged_from(merge, run, entries),
        forall|i: int| 0 <= i < entries.len() ==> key_lt((#[trigger] entries[i]).0, key),
        forall|i: int| 0 <= i < run.len() ==> key_lt((#[trigger] run[i]).0, key),
        group.len() > 0,
        forall|i: int| 0 <= i < group.len() ==> (#[trigger] group[i]).0 == key,
        merges_to(merge, key, vals_of(group, key), Ok::<_, U>(val)),
    ensures
        merged_from(merge, run.push((key, val)), entries + group),
{
    let after = run.push((key, val));
    assert forall|k: Seq<u8>| #[trigger] merged_key(
        merge,
        k,
        vals_of(entries + group, k),
        vals_of(after, k),
    ) by {
        assert(merged_key(merge, k, vals_of(entries, k), vals_of(run, k)));
        vals_of_add(entries, group, k);
        assert(after.drop_last() =~= run);
        if k == key {
            vals_of_absent(entries, k);
            vals_of_absent(run, k);
            vals_of_front(group, k);
            assert(vals_of(entries + group, k) =~= vals_of(group, k));
            assert(vals_of(after, k)[0] == val);
        } else {
            vals_of_absent(group, k);
            assert(vals_of(entries + group, k) =~= vals_of(entries, k));
        }
    }
}

/// Whether a run is what entries are dumped as: the merge function is called once for
/// each of their keys, with all its values, and a chunk can take what it makes.
pub open spec fn dumps_as<MF, U>(
    merge: MF,
    compression: CompressionType,
    entries: Seq<KeyVal>,
    run: Seq<KeyVal>,
) -> bool where MF: for <'a>Fn(&[u8], &[Cow<'a, [u8]>]) -> Result<Cow<'a, [u8]>, U> {
    &&& merged_from(merge, run, entries)
    &&& accepts_all(blank_chunk(compression), run)
}

/// The values of a key, if it comes before another.
pub open spec fn vals_below(entries: Seq<KeyVal>, k: Seq<u8>, key: Seq<u8>) -> Seq<Seq<u8>> {
    if key_lt(k, key) {
        vals_of(entries, k)
    } else {
        Seq::empty()
    }
}

/// Whether a run holds what the merge function makes of the entries whose keys come
/// before a key.
pub open spec fn merged_below<MF, U>(
    merge: MF,
    run: Seq<KeyVal>,
    entries: Seq<KeyVal>,
    key: Seq<u8>,
) -> bool where MF: for <'a>Fn(&[u8], &[Cow<'a, [u8]>]) -> Result<Cow<'a, [u8]>, U> {
    &&& sorted(run)
    &&& forall|k: Seq<u8>| #[trigger]
        merged_key(
            merge,
            k,
            vals_below(entries, k, key),
            vals_of(run, k),
        )
}

/// Whether an error is what dumping entries stops with where nothing faults: at some
/// key, after those before it were merged and written, the merge function fails on all
/// its values, or the chunk cannot take what it makes of them.
pub open spec fn dump_stops<MF, U>(
    merge: MF,
    compression: CompressionType,
    entries: Seq<KeyVal>,
    e: Error<U>,
) -> bool where MF: for <'a>Fn(&[u8], &[Cow<'a, [u8]>]) -> Result<Cow<'a, [u8]>, U> {
    exists|run: Seq<KeyVal>, key: Seq<u8>|
        {
            &&& #[trigger] merged_below(merge, run, entries, key)
            &&& accepts_all(blank_chunk(compression), run)
            &&& vals_of(entries, key).len() > 0
            &&& stops_at(
                merge,
                inserted_all(blank_chunk(compression), run),
                key,
                vals_of(entries, key),
                e,
            )
        }
}

/// Whether an error is what one call of the merge function ends in, or a writer that
/// cannot take what it makes.
pub open spec fn stops_at<MF, U>(
    merge: MF,
    w: WriterView,
    key: Seq<u8>,
    vals: Seq<Seq<u8>>,
    e: Error<U>,
) -> bool where MF: for <'a>Fn(&[u8], &[Cow<'a, [u8]>]) -> Result<Cow<'a, [u8]>, U> {
    match e {
        Error::Merge(e) => merges_to(merge, key, vals, Err::<Seq<u8>, U>(e)),
        Error::Io(IoError::InvalidInput) => exists|val: Seq<u8>|
            #[trigger] merges_to(merge, key, vals, Ok::<_, U>(val)) && !w.accepts((key, val)),
        _ => false,
    }
}

/// Whether a run is what the runs of chunks are merged into: all that their merge
/// yields, which a chunk can take.
pub open spec fn chunks_merge_as<MF, U>(
    merge: MF,
    compression: CompressionType,
    runs: Seq<Seq<KeyVal>>,
    out: Seq<KeyVal>,
) -> bool where MF: for <'a>Fn(&[u8], &[Cow<'a, [u8]>]) -> Result<Cow<'a, [u8]>, U> {
    &&& merges_into(merge, run_sources(runs), out)
    &&& accepts_all(blank_chunk(compression), out)
}

/// Whether an error is what merging chunks into one stops with where nothing faults.
pub open spec fn chunk_merge_stops<MF, U>(
    merge: MF,
    compression: CompressionType,
    runs: Seq<Seq<KeyVal>>,
    e: Error<U>,
) -> bool where MF: for <'a>Fn(&[u8], &[Cow<'a, [u8]>]) -> Result<Cow<'a, [u8]>, U> {
    exists|out: Seq<KeyVal>, after: WriterView| #[trigger]
        writes_out(
            merge,
            run_sources(runs),
            blank_chunk(compression),
            out,
            Err::<(), _>(e),
            after,
        )
}

/// Whether a result is a failure to dump what a sorter has in memory: a chunk cannot
/// be made or written, or the entries in memory explain it.
pub open spec fn dump_failure<MF, CC, U, T>(
    sorter: &Sorter<MF, CC>,
    r: Result<T, Error<U>>,
) -> bool where
    MF: for <'a>Fn(&[u8], &[Cow<'a, [u8]>]) -> Result<Cow<'a, [u8]>, U>,
    CC: ChunkCreation,
 {
    let compression = sorter.settings().chunk_compression_type;
    ||| creation_failure(sorter.creation(), r)
    ||| chunk_failure(sorter.creation(), r)
    ||| {
        &&& r is Err
        &&& can_create(sorter.creation())
        &&& dump_stops(sorter.merge_fn(), compression, sorter.in_memory(), r->Err_0)
        &&& merge_fails(sorter.merge_fn(), compression, sorter@, r->Err_0)
    }
}

/// Whether `after` are the runs of chunks once merging them into one has failed. Where
/// no chunk can be made to merge them into, or it cannot be begun, they are as they
/// were. Where the merge function fails, or a chunk cannot take what it makes, or a
/// chunk fails, they are lost.
pub open spec fn chunk_merge_failure<MF, CC, U>(
    merge: MF,
    creation: CC,
    compression: CompressionType,
    before: Seq<Seq<KeyVal>>,
    r: Result<(), Error<U>>,
    after: Seq<Seq<KeyVal>>,
) -> bool where
    MF: for <'a>Fn(&[u8], &[Cow<'a, [u8]>]) -> Result<Cow<'a, [u8]>, U>,
    CC: ChunkCreation,
 {
    ||| creation_failure(creation, r) && after == before
    ||| chunk_failure(creation, r) && (after == before || after.len() == 0)
    ||| {
        &&& r is Err
        &&& can_create(creation)
        &&& after.len() == 0
        &&& chunk_merge_stops(merge, compression, before, r->Err_0)
    }
}

/// Whether `r` is what merging the runs of chunks into a writer answers, and `after` is
/// what becomes of the writer. Where a chunk fails, and the writer does not, what was
/// merged before stands in it.
pub open spec fn runs_write_relation<MF, CC, U>(
    merge: MF,
    creation: CC,
    runs: Seq<Seq<KeyVal>>,
    before: WriterView,
    write_faults: Set<std::io::Error>,
    r: Result<(), Error<U>>,
    after: WriterView,
) -> bool where
    MF: for <'a>Fn(&[u8], &[Cow<'a, [u8]>]) -> Result<Cow<'a, [u8]>, U>,
    CC: ChunkCreation,
 {
    if faulted(r) {
        ||| fails_with(r, write_faults)
        ||| {
            &&& fails_with(r, creation.chunk_faults())
            &&& writes_some(merge, run_sources(runs), before, after)
        }
    } else {
        exists|out: Seq<KeyVal>| #[trigger]
            writes_out(merge, run_sources(runs), before, out, r, after)
    }
}

/// Entries that have the same values are dumped as the same.
proof fn dumps_same<MF, U>(
    merge: MF,
    compression: CompressionType,
    a: Seq<KeyVal>,
    b: Seq<KeyVal>,
) where MF: for <'a>Fn(&[u8], &[Cow<'a, [u8]>]) -> Result<Cow<'a, [u8]>, U>
    requires
        same_values(a, b),
    ensures
        forall|run: Seq<KeyVal>| #[trigger]
            merged_from(merge, run, a) ==> merged_from(merge, run, b),
        forall|e: Error<U>| #[trigger]
            dump_stops(merge, compression, a, e) ==> dump_stops(merge, compression, b, e),
{
    assert forall|run: Seq<KeyVal>| #[trigger] merged_from(merge, run, a) implies merged_from(
        merge,
        run,
        b,
    ) by {
        assert forall|k: Seq<u8>| #[trigger]
            merged_key(merge, k, vals_of(b, k), vals_of(run, k)) by {
            assert(vals_of(a, k) == vals_of(b, k));
            assert(merged_key(merge, k, vals_of(a, k), vals_of(run, k)));
        }
    }
    assert forall|e: Error<U>| #[trigger] dump_stops(merge, compression, a, e) implies dump_stops(
        merge,
        compression,
        b,
        e,
    ) by {
        let (run, key) = choose|run: Seq<KeyVal>, key: Seq<u8>|
            {
                &&& #[trigger] merged_below(merge, run, a, key)
                &&& accepts_all(blank_chunk(compression), run)
                &&& vals_of(a, key).len() > 0
                &&& stops_at(
                    merge,
                    inserted_all(blank_chunk(compression), run),
                    key,
                    vals_of(a, key),
                    e,
                )
            };
        assert(vals_of(a, key) == vals_of(b, key));
        assert forall|k: Seq<u8>| #[trigger] merged_key(
            merge,
            k,
            vals_below(b, k, key),
            vals_of(run, k),
        ) by {
            assert(vals_of(a, k) == vals_of(b, k));
            assert(merged_key(
                merge,
                k,
                vals_below(a, k, key),
                vals_of(run, k),
            ));
        }
        assert(merged_below(merge, run, b, key));
    }
}

/// Where dumping entries stops, the entries explain why.
proof fn dump_stops_fails<MF, U>(
    merge: MF,
    compression: CompressionType,
    entries: Seq<KeyVal>,
    e: Error<U>,
) where MF: for <'a>Fn(&[u8], &[Cow<'a, [u8]>]) -> Result<Cow<'a, [u8]>, U>
    requires
        dump_stops(merge, compression, entries, e),
    ensures
        merge_fails(merge, compression, entries, e),
{
    let blank = blank_chunk(compression);
    let (run, key) = choose|run: Seq<KeyVal>, key: Seq<u8>|
        {
            &&& #[trigger] merged_below(merge, run, entries, key)
            &&& accepts_all(blank, run)
            &&& vals_of(entries, key).len() > 0
            &&& stops_at(merge, inserted_all(blank, run), key, vals_of(entries, key), e)
        };
    let vals = vals_of(entries, key);
    is_part_whole(vals);
    match e {
        Error::Merge(u) => {
            comes_from_inserted(merge, key, vals, vals);
        },
        Error::Io(IoError::InvalidInput) => {
            let w = inserted_all(blank, run);
            let val = choose|val: Seq<u8>| #[trigger]
                merges_to(merge, key, vals, Ok::<_, U>(val)) && !w.accepts((key, val));
            assert(encoded(Seq::empty()) =~= Seq::empty());
            inserted_all_not_full(blank, run);
            inserted_all_entries(blank, run);
            refused_too_long(w, (key, val));
            made_at_once(merge, key, vals, val);
        },
        _ => {},
    }
}

/// Where dumping the entries in memory stops, what was inserted since the last dump
/// explains why, and so does all that was inserted.
proof fn dump_stops_in_memory<MF, U>(
    merge: MF,
    compression: CompressionType,
    entries: Seq<KeyVal>,
    dumped: Seq<KeyVal>,
    recent: Seq<KeyVal>,
    e: Error<U>,
) where MF: for <'a>Fn(&[u8], &[Cow<'a, [u8]>]) -> Result<Cow<'a, [u8]>, U>
    requires
        same_values(entries, recent),
        dump_stops(merge, compression, entries, e),
    ensures
        dump_stops(merge, compression, recent, e),
        merge_fails(merge, compression, dumped + recent, e),
{
    dumps_same(merge, compression, entries, recent);
    dump_stops_fails(merge, compression, recent, e);
    assert forall|key: Seq<u8>| #[trigger] vals_of(dumped + recent, key) == vals_of(dumped, key)
        + vals_of(recent, key) by {
        vals_of_add(dumped, recent, key);
    }
    merge_fails_on_more(merge, compression, recent, e, dumped, dumped + recent);
}

/// What entries are dumped as stands for them.
proof fn dump_stands_for<MF, U>(
    merge: MF,
    run: Seq<KeyVal>,
    share: Seq<KeyVal>,
) where MF: for <'a>Fn(&[u8], &[Cow<'a, [u8]>]) -> Result<Cow<'a, [u8]>, U>
    requires
        merged_from(merge, run, share),
    ensures
        stands_for(merge, run, share),
{
    assert forall|k: Seq<u8>| k.len() > 0 implies #[trigger] key_stands_for(
        merge,
        k,
        vals_of(run, k),
        vals_of(share, k),
    ) by {
        assert(merged_key(merge, k, vals_of(share, k), vals_of(run, k)));
        if vals_of(share, k).len() > 0 {
            made_at_once(merge, k, vals_of(share, k), vals_of(run, k)[0]);
        }
    }
    let empty = Seq::<u8>::empty();
    let vals = vals_of(share, empty);
    assert(merged_key(merge, empty, vals, vals_of(run, empty)));
    if vals.len() > 0 {
        made_at_once(merge, empty, vals, vals_of(run, empty)[0]);
        assert(vals.skip(0) =~= vals);
        assert(made_of(merge, empty, vals.skip(0), vals_of(run, empty)[0]));
    }
}

/// Where merging runs into a chunk stops, what was inserted explains why.
proof fn chunk_merge_fails<MF, U>(
    merge: MF,
    compression: CompressionType,
    sources: Seq<Stream>,
    inserted: Seq<KeyVal>,
    out: Seq<KeyVal>,
    e: Error<U>,
    after: WriterView,
) where MF: for <'a>Fn(&[u8], &[Cow<'a, [u8]>]) -> Result<Cow<'a, [u8]>, U>
    requires
        runs_of(merge, sources, inserted),
        writes_out(merge, sources, blank_chunk(compression), out, Err::<(), _>(e), after),
    ensures
        merge_fails(merge, compression, inserted, e),
{
    let blank = blank_chunk(compression);
    merge_of_runs_stops(merge, sources, inserted, blank, out, e, after);
    assert(encoded(Seq::empty()) =~= Seq::empty());
    inserted_all_not_full(blank, out);
    inserted_all_entries(blank, out);
    match e {
        Error::Io(IoError::InvalidInput) => {
            let w = inserted_all(blank, out);
            let (key, part, val) = choose|key: Seq<u8>, part: Seq<Seq<u8>>, val: Seq<u8>|
                {
                    &&& #[trigger] made_of(merge, key, part, val)
                    &&& is_part(part, vals_of(inserted, key))
                    &&& !w.accepts((key, val))
                };
            refused_too_long(w, (key, val));
        },
        _ => {},
    }
}

/// All entries of a key stand together where the keys ascend.
proof fn group_is_all(all: Seq<KeyVal>, i: int, j: int, key: Seq<u8>)
    requires
        0 <= i < j <= all.len(),
        forall|a: int| 0 <= a < i ==> (#[trigger] all[a]).0 != key,
        forall|a: int| j <= a < all.len() ==> (#[trigger] all[a]).0 != key,
        all[i].0 == key,
    ensures
        vals_of(all.subrange(i, j), key) == vals_of(all, key),
        vals_of(all, key).len() > 0,
{
    let before = all.take(i);
    let group = all.subrange(i, j);
    let after = all.skip(j);
    vals_of_add(before, group, key);
    vals_of_add(before + group, after, key);
    assert(before + group + after =~= all);
    assert forall|a: int| 0 <= a < after.len() implies (#[trigger] after[a]).0 != key by {
        assert(after[a] == all[j + a]);
    }
    vals_of_absent(before, key);
    vals_of_absent(after, key);
    assert(vals_of(all, key) =~= vals_of(group, key));
    assert(group[0] == all[i]);
    vals_of_front(group, key);
}

/// What the entries before a key are merged into holds what all entries before it
/// are.
proof fn merged_below_prefix<MF, U>(
    merge: MF,
    run: Seq<KeyVal>,
    all: Seq<KeyVal>,
    i: int,
) where MF: for <'a>Fn(&[u8], &[Cow<'a, [u8]>]) -> Result<Cow<'a, [u8]>, U>
    requires
        0 <= i < all.len(),
        ascending(all),
        merged_from(merge, run, all.take(i)),
        forall|a: int| 0 <= a < i ==> key_lt((#[trigger] all[a]).0, all[i].0),
    ensures
        merged_below(merge, run, all, all[i].0),
{
    let key = all[i].0;
    let before = all.take(i);
    let rest = all.skip(i);
    assert(before + rest =~= all);
    assert forall|k: Seq<u8>| #[trigger] merged_key(
        merge,
        k,
        vals_below(all, k, key),
        vals_of(run, k),
    ) by {
        assert(merged_key(merge, k, vals_of(before, k), vals_of(run, k)));
        if key_lt(k, key) {
            vals_of_add(before, rest, k);
            assert forall|a: int| 0 <= a < rest.len() implies (#[trigger] rest[a]).0 != k by {
                assert(rest[a] == all[i + a]);
                key_le_reflexive(key);
                if rest[a].0 == k {
                    key_le_antisymmetric(key, k);
                }
            }
            vals_of_absent(rest, k);
            assert(vals_of(all, k) =~= vals_of(before, k));
        } else {
            vals_of_absent(before, k);
        }
    }
}

impl<MF, CC, U> Sorter<MF, CC> where
    MF: for <'a>Fn(&[u8], &[Cow<'a, [u8]>]) -> Result<Cow<'a, [u8]>, U>,
    CC: ChunkCreation,
 {
    /// A writer into a new chunk.
    fn new_writer(&self) -> (r: Result<Writer<CC::Chunk>, Error<U>>)
        requires
            self.chunk_creation.sound(),
        ensures
            match r {
                Ok(writer) => {
                    &&& writer.wf()
                    &&& writer.write_faults().subset_of(self.chunk_creation.chunk_faults())
                    &&& writer@ == blank_chunk(self.settings.chunk_compression_type)
                    &&& can_create(self.chunk_creation)
                },
                Err(e) => {
                    ||| creation_failure(self.chunk_creation, r)
                    ||| chunk_failure(self.chunk_creation, r)
                },
            },
    {
        let chunk = match self.chunk_creation.create() {
            Ok(chunk) => chunk,
            Err(e) => {
                let e: Error = e.into();
                return Err(e.convert_merge_error());
            },
        };
        let mut builder = WriterBuilder::new();
        builder.compression_type(self.settings.chunk_compression_type);
        builder.compression_level(self.settings.chunk_compression_level);
        match builder.build(chunk) {
            Ok(writer) => Ok(writer),
            Err(e) => Err(e.convert_merge_error()),
        }
    }

    /// Merges the sorted entries of the buffer key by key into a writer.
    fn write_entries<W: Write>(&self, writer: &mut Writer<W>) -> (r: Result<(), Error<U>>)
        requires
            total(self.merge),
            self.entries.wf(),
            ascending(self.entries@),
            old(writer).wf(),
            old(writer)@ == blank_chunk(self.settings.chunk_compression_type),
        ensures
            final(writer).write_faults().subset_of(old(writer).write_faults()),
            match r {
                Ok(()) => {
                    &&& final(writer).wf()
                    &&& exists|run: Seq<KeyVal>|
                        {
                            &&& #[trigger] merged_from(self.merge, run, self.entries@)
                            &&& accepts_all(old(writer)@, run)
                            &&& final(writer)@ == inserted_all(old(writer)@, run)
                        }
                },
                Err(e) => if faulted(r) {
                    fails_with(r, old(writer).write_faults())
                } else {
                    dump_stops(
                        self.merge,
                        self.settings.chunk_compression_type,
                        self.entries@,
                        e,
                    )
                },
            },
    {
        let ghost all = self.entries@;
        let ghost mut run: Seq<KeyVal> = Seq::empty();
        let n = self.entries.len();
        let mut i: usize = 0;
        proof {
            assert(all.take(0) =~= Seq::empty());
            accepts_all_empty(writer@);
        }
        while i < n
            invariant
                total(self.merge),
                self.entries.wf(),
                all == self.entries@,
                ascending(all),
                n == all.len(),
                i <= n,
                writer.wf(),
                writer.write_faults().subset_of(old(writer).write_faults()),
                writer@ == inserted_all(old(writer)@, run),
                old(writer)@ == blank_chunk(self.settings.chunk_compression_type),
                accepts_all(old(writer)@, run),
                merged_from(self.merge, run, all.take(i as int)),
                forall|a: int, b: int| #![trigger all[a], all[b]]
                    0 <= a < i <= b < n ==> key_lt(all[a].0, all[b].0),
                forall|a: int, b: int| #![trigger run[a], all[b]]
                    0 <= a < run.len() && i <= b < n ==> key_lt(run[a].0, all[b].0),
            decreases n - i,
        {
            let (key, first) = self.entries.entry(i);
            let mut vals: Vec<Cow<'_, [u8]>> = Vec::new();
            vals.push(Cow::Borrowed(first));
            let mut j: usize = i + 1;
            proof {
                let group = all.subrange(i as int, i + 1);
                assert(group.drop_last() =~= Seq::empty());
                reveal_with_fuel(vals_of, 2);
                assert(values(vals@) =~= vals_of(group, key@));
            }
            while j < n && same_bytes(self.entries.entry(j).0, key)
                invariant
                    self.entries.wf(),
                    all == self.entries@,
                    n == all.len(),
                    i < j <= n,
                    key@ == all[i as int].0,
                    forall|a: int| i <= a < j ==> (#[trigger] all[a]).0 == key@,
                    values(vals@) == vals_of(all.subrange(i as int, j as int), key@),
                decreases n - j,
            {
                let (same, val) = self.entries.entry(j);
                let ghost before = values(vals@);
                vals.push(Cow::Borrowed(val));
                proof {
                    let group = all.subrange(i as int, j + 1);
                    assert(group.drop_last() =~= all.subrange(i as int, j as int));
                    assert(values(vals@) =~= before.push(val@));
                }
                j = j + 1;
            }
            let ghost group = all.subrange(i as int, j as int);
            proof {
                assert forall|b: int| j <= b < n implies key_lt(key@, (#[trigger] all[b]).0) by {
                    assert(all[j as int].0 != key@);
                    assert(key_le(key@, all[j as int].0));
                    if b > j {
                        key_lt_le_transitive(key@, all[j as int].0, all[b].0);
                    }
                }
                group_is_all(all, i as int, j as int, key@);
                merged_below_prefix(self.merge, run, all, i as int);
            }
            let merged = match call_merge(&self.merge, key, vals.as_slice()) {
                Ok(merged) => merged,
                Err(e) => {
                    let failure: Error<U> = Error::Merge(e);
                    assert(merges_to(
                        self.merge,
                        key@,
                        values(vals@),
                        Err::<Seq<u8>, U>(failure->Merge_0),
                    ));
                    assert(stops_at(
                        self.merge,
                        inserted_all(old(writer)@, run),
                        key@,
                        vals_of(all, key@),
                        failure,
                    ));
                    return Err(failure);
                },
            };
            proof {
                assert(merged_from(self.merge, run.push((key@, merged@)), all.take(j as int))) by {
                    assert(all.take(j as int) =~= all.take(i as int) + group);
                    merged_from_push(self.merge, run, all.take(i as int), group, key@, merged@);
                }
                assert(run.push((key@, merged@)).drop_last() =~= run);
                assert forall|a: int, b: int| #![trigger all[a], all[b]]
                    0 <= a < j <= b < n implies key_lt(all[a].0, all[b].0) by {
                    assert(key_lt(key@, all[b].0));
                }
            }
            match writer.insert(key, merged.as_slice()) {
                Ok(()) => {},
                Err(e) => {
                    let r: Result<(), Error<U>> = Err(e.convert_merge_error());
                    proof {
                        if !faulted(r) {
                            assert(stops_at(
                                self.merge,
                                inserted_all(old(writer)@, run),
                                key@,
                                vals_of(all, key@),
                                r->Err_0,
                            ));
                        }
                    }
                    return r;
                },
            }
            proof {
                accepts_all_push(old(writer)@, run, (key@, merged@));
                run = run.push((key@, merged@));
            }
            i = j;
        }
        assert(all.take(n as int) =~= all);
        Ok(())
    }

    /// Finishes a chunk that holds a run.
    fn close_chunk(&self, writer: Writer<CC::Chunk>, Ghost(run): Ghost<Seq<KeyVal>>) -> (r: Result<
        CC::Chunk,
        Error<U>,
    >)
        requires
            writer.wf(),
            writer.write_faults().subset_of(self.chunk_creation.chunk_faults()),
            writer@ == inserted_all(blank_chunk(self.settings.chunk_compression_type), run),
        ensures
            match r {
                Ok(chunk) => {
                    &&& chunk.written() == chunk_file(self.settings.chunk_compression_type, run)
                    &&& holds(chunk.written(), run)
                    &&& chunk.write_faults().subset_of(self.chunk_creation.chunk_faults())
                },
                Err(e) => fails_with(r, self.chunk_creation.chunk_faults()),
            },
    {
        proof {
            let v = blank_chunk(self.settings.chunk_compression_type);
            assert(encoded(Seq::empty()) =~= Seq::empty());
            inserted_all_not_full(v, run);
            inserted_all_entries(v, run);
            assert(v.entries() + run =~= run);
            assert(writer@.start + writer@.finished().bytes() =~= writer@.finished().bytes());
            reveal(chunk_file);
        }
        match writer.into_inner() {
            Ok(chunk) => Ok(chunk),
            Err(e) => Err(e.convert_merge_error()),
        }
    }

    /// Dumps the entries in memory, sorted and merged, into a new chunk. Where that
    /// fails, all is as it was.
    fn write_chunk(&mut self) -> (r: Result<(), Error<U>>)
        requires
            old(self).wf(),
        ensures
            final(self).wf(),
            final(self).same_parts(old(self)),
            match r {
                Ok(()) => {
                    &&& can_create(old(self).creation())
                    &&& exists|run: Seq<KeyVal>|
                        {
                            &&& #[trigger] dumps_as(
                                old(self).merge_fn(),
                                old(self).settings().chunk_compression_type,
                                old(self).in_memory(),
                                run,
                            )
                            &&& final(self).runs() == old(self).runs().push(run)
                        }
                    &&& final(self).in_memory() == Seq::<KeyVal>::empty()
                    &&& final(self).dumped() == old(self)@
                    &&& final(self).capacity() == old(self).capacity()
                    &&& final(self).used() == 0
                },
                Err(e) => {
                    &&& final(self).same_entries(old(self))
                    &&& dump_failure(old(self), r)
                },
            },
    {
        let mut writer = match self.new_writer() {
            Ok(writer) => writer,
            Err(e) => return Err(e),
        };
        let ghost w0 = writer@;
        self.entries.sort_unstable_by_key();
        match self.write_entries(&mut writer) {
            Ok(()) => {},
            Err(e) => {
                let r: Result<(), Error<U>> = Err(e);
                proof {
                    if !faulted(r) {
                        dump_stops_in_memory(
                            self.merge,
                            self.settings.chunk_compression_type,
                            self.entries@,
                            self.dumped(),
                            self.recent@,
                            r->Err_0,
                        );
                    }
                }
                return r;
            },
        }
        let ghost run = choose|run: Seq<KeyVal>|
            {
                &&& #[trigger] merged_from(self.merge, run, self.entries@)
                &&& accepts_all(w0, run)
                &&& writer@ == inserted_all(w0, run)
            };
        let chunk = match self.close_chunk(writer, Ghost(run)) {
            Ok(chunk) => chunk,
            Err(e) => return Err(e),
        };
        proof {
            let share = self.recent@;
            dumps_same(
                self.merge,
                self.settings.chunk_compression_type,
                self.entries@,
                self.recent@,
            );
            assert(dumps_as(self.merge, self.settings.chunk_compression_type, share, run));
            dump_stands_for(self.merge, run, share);
            concat_push(self.shares@, share);
        }
        self.chunks.push(chunk);
        self.entries.clear();
        self.runs = Ghost(self.runs@.push(run));
        self.shares = Ghost(self.shares@.push(self.recent@));
        self.recent = Ghost(Seq::empty());
        proof {
            assert(self.dumped() =~= old(self)@);
            assert(self.runs() == old(self).runs().push(run));
            assert(dumps_as(
                old(self).merge_fn(),
                old(self).settings().chunk_compression_type,
                old(self).in_memory(),
                run,
            ));
        }
        Ok(())
    }

    /// Merges all chunks into one. Where no chunk can be made for that, they are kept;
    /// where merging them fails, they are lost.
    fn merge_chunks(&mut self) -> (r: Result<(), Error<U>>)
        requires
            old(self).wf(),
        ensures
            final(self).wf(),
            final(self).same_parts(old(self)),
            final(self).capacity() == old(self).capacity(),
            final(self).used() == old(self).used(),
            final(self).in_memory() == old(self).in_memory(),
            match r {
                Ok(()) => {
                    &&& can_create(old(self).creation())
                    &&& exists|out: Seq<KeyVal>|
                        {
                            &&& #[trigger] chunks_merge_as(
                                old(self).merge_fn(),
                                old(self).settings().chunk_compression_type,
                                old(self).runs(),
                                out,
                            )
                            &&& final(self).runs() == seq![out]
                        }
                    &&& final(self).dumped() == old(self).dumped()
                },
                Err(e) => {
                    &&& chunk_merge_failure(
                        old(self).merge_fn(),
                        old(self).creation(),
                        old(self).settings().chunk_compression_type,
                        old(self).runs(),
                        r,
                        final(self).runs(),
                    )
                    &&& final(self).dumped() == if final(self).runs() == old(self).runs() {
                        old(self).dumped()
                    } else {
                        Seq::empty()
                    }
                    &&& {
                        ||| creation_failure(old(self).creation(), r)
                        ||| chunk_failure(old(self).creation(), r)
                        ||| merge_fails(
                            old(self).merge_fn(),
                            old(self).settings().chunk_compression_type,
                            old(self).dumped(),
                            e,
                        )
                    }
                },
            },
    {
        let mut writer = match self.new_writer() {
            Ok(writer) => writer,
            Err(e) => return Err(e),
        };
        let ghost (runs, shares) = (self.runs@, self.shares@);
        let mut chunks: Vec<CC::Chunk> = Vec::new();
        std::mem::swap(&mut chunks, &mut self.chunks);
        self.runs = Ghost(Seq::empty());
        self.shares = Ghost(Seq::empty());
        proof {
            if runs.len() == 0 {
                assert(runs =~= Seq::empty());
                assert(shares =~= Seq::empty());
            }
        }
        let chunk = match self.merge_drained(chunks, writer, Ghost(runs), Ghost(shares)) {
            Ok(chunk) => chunk,
            Err(e) => return Err(e),
        };
        let ghost out = choose|out: Seq<KeyVal>|
            {
                &&& #[trigger] chunks_merge_as(
                    self.merge,
                    self.settings.chunk_compression_type,
                    runs,
                    out,
                )
                &&& chunk.written() == chunk_file(self.settings.chunk_compression_type, out)
                &&& holds(chunk.written(), out)
                &&& stands_for(self.merge, out, concat(shares))
            };
        self.chunks.push(chunk);
        let ghost (new_runs, new_shares) = (seq![out], seq![concat(shares)]);
        self.runs = Ghost(new_runs);
        self.shares = Ghost(new_shares);
        proof {
            concat_one(concat(shares));
            assert(chunks_merge_as(
                old(self).merge_fn(),
                old(self).settings().chunk_compression_type,
                old(self).runs(),
                out,
            ));
            assert(self.runs() == seq![out]);
        }
        Ok(())
    }

    /// Merges chunks that were taken out of the sorter into a writer, and finishes the
    /// chunk that it writes.
    fn merge_drained(
        &self,
        chunks: Vec<CC::Chunk>,
        writer: Writer<CC::Chunk>,
        Ghost(runs): Ghost<Seq<Seq<KeyVal>>>,
        Ghost(shares): Ghost<Seq<Seq<KeyVal>>>,
    ) -> (r: Result<CC::Chunk, Error<U>>)
        requires
            total(self.merge),
            writer.wf(),
            writer@ == blank_chunk(self.settings.chunk_compression_type),
            writer.write_faults().subset_of(self.chunk_creation.chunk_faults()),
            chunks_hold(self.settings.chunk_compression_type, chunks@, runs),
            runs_stand_for(self.merge, runs, shares),
            chunks_fail_with(chunks@, self.chunk_creation.chunk_faults()),
        ensures
            match r {
                Ok(chunk) => {
                    &&& chunk.write_faults().subset_of(self.chunk_creation.chunk_faults())
                    &&& exists|out: Seq<KeyVal>|
                        {
                            &&& #[trigger] chunks_merge_as(
                                self.merge,
                                self.settings.chunk_compression_type,
                                runs,
                                out,
                            )
                            &&& chunk.written() == chunk_file(
                                self.settings.chunk_compression_type,
                                out,
                            )
                            &&& holds(chunk.written(), out)
                            &&& stands_for(self.merge, out, concat(shares))
                        }
                },
                Err(e) => if faulted(r) {
                    fails_with(r, self.chunk_creation.chunk_faults())
                } else {
                    &&& chunk_merge_stops(
                        self.merge,
                        self.settings.chunk_compression_type,
                        runs,
                        e,
                    )
                    &&& merge_fails(
                        self.merge,
                        self.settings.chunk_compression_type,
                        concat(shares),
                        e,
                    )
                },
            },
    {
        let mut writer = writer;
        let ghost w0 = writer@;
        let readers = match open_chunks(
            chunks,
            Ghost(self.settings.chunk_compression_type),
            Ghost(runs),
            Ghost(self.chunk_creation.chunk_faults()),
        ) {
            Ok(readers) => readers,
            Err(e) => return Err(e.convert_merge_error()),
        };
        let ghost all = streams(readers@);
        proof {
            run_streams_stand_for(self.merge, runs, shares);
            opened_runs(self.merge, all, shares);
        }
        let ghost sources = run_sources(runs);
        let outcome = merge_into(readers, &self.merge, &mut writer);
        let ghost said = outcome;
        match outcome {
            Ok(()) => {},
            Err(e) => {
                proof {
                    if !faulted(said) {
                        let out = choose|out: Seq<KeyVal>| #[trigger]
                            writes_out(self.merge, sources, w0, out, said, writer@);
                        chunk_merge_fails(
                            self.merge,
                            self.settings.chunk_compression_type,
                            sources,
                            concat(shares),
                            out,
                            said->Err_0,
                            writer@,
                        );
                        assert(writes_out(
                            self.merge,
                            run_sources(runs),
                            blank_chunk(self.settings.chunk_compression_type),
                            out,
                            Err::<(), Error<U>>(said->Err_0),
                            writer@,
                        ));
                    }
                }
                return Err(e);
            },
        }
        let ghost out = choose|out: Seq<KeyVal>| #[trigger]
            writes_out(self.merge, sources, w0, out, said, writer@);
        proof {
            merge_of_runs(self.merge, sources, concat(shares), out);
            assert(chunks_merge_as(
                self.merge,
                self.settings.chunk_compression_type,
                runs,
                out,
            ));
        }
        self.close_chunk(writer, Ghost(out))
    }

    /// A sorter with the default settings.
    pub fn new(merge: MF) -> (sorter: Sorter<MF, DefaultChunkCreation>)
        requires
            total(merge),
        ensures
            sorter.wf(),
            sorter@ == Seq::<KeyVal>::empty(),
            sorter.settings() == default_settings(),
            sorter.creation() == CursorVec,
            sorter.merge_fn() == merge,
            sorter.runs() == Seq::<Seq<KeyVal>>::empty(),
            sorter.in_memory() == Seq::<KeyVal>::empty(),
            sorter.dumped() == Seq::<KeyVal>::empty(),
            sorter.has_few_chunks(),
            sorter.capacity() == rounded_up(INITIAL_SORTER_VEC_SIZE as nat),
            sorter.used() == 0,
    {
        SorterBuilder::new(merge).build()
    }

    /// Inserts an entry. Where it does not fit into memory, the buffer grows or is
    /// dumped first, and when that makes too many chunks, they are merged.
    pub fn insert(&mut self, key: &[u8], val: &[u8]) -> (r: Result<(), Error<U>>)
        requires
            old(self).wf(),
            old(self).can_take(key@, val@),
        ensures
            final(self).wf(),
            final(self).same_parts(old(self)),
            ({
                let merge = old(self).merge_fn();
                let compression = old(self).settings().chunk_compression_type;
                let full = old(self).chunk_count() + 1 >= old(self).settings().max_nb_chunks;
                if !old(self).dumps(key@, val@) {
                    &&& r is Ok
                    &&& final(self).runs() == old(self).runs()
                    &&& final(self).dumped() == old(self).dumped()
                    &&& final(self).in_memory() == old(self).in_memory().push((key@, val@))
                    &&& final(self).capacity() == old(self).capacity_for(key@, val@)
                    &&& final(self).used() == old(self).need(key@, val@)
                } else {
                    // The buffer could not be dumped, and all is as it was.
                    ||| dump_failure(old(self), r) && final(self).same_entries(old(self))
                    // It was dumped as a run.
                    ||| exists|run: Seq<KeyVal>|
                        {
                            &&& #[trigger] dumps_as(
                                merge,
                                compression,
                                old(self).in_memory(),
                                run,
                            )
                            &&& can_create(old(self).creation())
                            &&& final(self).in_memory() == seq![(key@, val@)]
                            &&& final(self).capacity() == old(self).capacity_for(key@, val@)
                            &&& final(self).used() == old(self).need(key@, val@)
                            &&& if r is Ok {
                                &&& final(self).dumped() == old(self)@
                                &&& if full {
                                    exists|out: Seq<KeyVal>|
                                        {
                                            &&& #[trigger] chunks_merge_as(
                                                merge,
                                                compression,
                                                old(self).runs().push(run),
                                                out,
                                            )
                                            &&& final(self).runs() == seq![out]
                                        }
                                } else {
                                    final(self).runs() == old(self).runs().push(run)
                                }
                            } else {
                                &&& full
                                &&& chunk_merge_failure(
                                    merge,
                                    old(self).creation(),
                                    compression,
                                    old(self).runs().push(run),
                                    r,
                                    final(self).runs(),
                                )
                                &&& final(self).dumped() == if final(self).runs().len() > 0 {
                                    old(self)@
                                } else {
                                    Seq::empty()
                                }
                            }
                        }
                }
            }),
            r is Ok ==> final(self)@ == old(self)@.push((key@, val@)),
            r is Ok && old(self).has_few_chunks() ==> final(self).has_few_chunks(),
            r is Err ==> {
                ||| creation_failure(old(self).creation(), r)
                ||| chunk_failure(old(self).creation(), r)
                ||| merge_fails(
                    old(self).merge_fn(),
                    old(self).settings().chunk_compression_type,
                    old(self)@,
                    r->Err_0,
                )
            },
    {
        proof {
            self.entries.wf_capacity();
            if self.capacity() > 0 {
                doubled_bounds(self.capacity(), self.need(key@, val@));
            }
        }
        if self.entries.fits(key, val) || (!self.threshold_exceeded()
            && self.settings.allow_realloc) {
            self.store(key, val);
        } else {
            match self.write_chunk() {
                Ok(()) => {},
                Err(e) => return Err(e),
            }
            self.store(key, val);
            assert(self.recent@ =~= seq![(key@, val@)]);
            if self.chunks.len() >= self.settings.max_nb_chunks {
                match self.merge_chunks() {
                    Ok(()) => {},
                    Err(e) => return Err(e),
                }
            }
        }
        Ok(())
    }

    /// Puts an entry into the buffer.
    fn store(&mut self, key: &[u8], val: &[u8])
        requires
            old(self).wf(),
            key@.len() <= u32::MAX,
            val@.len() <= u32::MAX,
            old(self).entries.can_hold(key@, val@),
        ensures
            final(self).wf(),
            final(self).same_parts(old(self)),
            final(self).in_memory() == old(self).in_memory().push((key@, val@)),
            final(self).dumped() == old(self).dumped(),
            final(self).runs() == old(self).runs(),
            final(self).capacity() == old(self).entries.capacity_for(key@, val@),
            final(self).used() == old(self).used() + Entries::size_of(key@, val@),
    {
        self.entries.insert(key, val);
        self.recent = Ghost(self.recent@.push((key@, val@)));
        proof {
            same_values_push(old(self).entries@, old(self).recent@, (key@, val@));
            total_size_push(old(self).recent@, (key@, val@));
        }
    }

    /// Dumps what is in memory and opens all chunks.
    fn into_readers(self) -> (r: Result<(Vec<Reader<CC::Chunk>>, MF), Error<U>>)
        requires
            self.wf(),
        ensures
            match r {
                Ok((readers, merge)) => {
                    &&& merge == self.merge_fn()
                    &&& all_wf(readers@)
                    &&& all_faults(readers@).subset_of(self.creation().chunk_faults())
                    &&& can_create(self.creation())
                    &&& all_compressed_with(readers@, self.settings().chunk_compression_type)
                    &&& exists|run: Seq<KeyVal>|
                        {
                            &&& #[trigger] dumps_as(
                                merge,
                                self.settings().chunk_compression_type,
                                self.in_memory(),
                                run,
                            )
                            &&& streams(readers@) == run_streams(self.runs().push(run))
                        }
                    &&& opened_sources(streams(readers@)) matches Ok(sources) && runs_of(
                        merge,
                        sources,
                        self@,
                    )
                },
                Err(e) => dump_failure(&self, r),
            },
    {
        let mut this = self;
        match this.write_chunk() {
            Ok(()) => {},
            Err(e) => return Err(e),
        }
        let ghost run = choose|run: Seq<KeyVal>|
            {
                &&& #[trigger] dumps_as(
                    self.merge_fn(),
                    self.settings().chunk_compression_type,
                    self.in_memory(),
                    run,
                )
                &&& this.runs() == self.runs().push(run)
            };
        let ghost (runs, shares) = (this.runs@, this.shares@);
        let readers = match open_chunks(
            this.chunks,
            Ghost(this.settings.chunk_compression_type),
            Ghost(runs),
            Ghost(this.chunk_creation.chunk_faults()),
        ) {
            Ok(readers) => readers,
            Err(e) => return Err(e.convert_merge_error()),
        };
        proof {
            let all = streams(readers@);
            run_streams_stand_for(this.merge, runs, shares);
            assert(concat(shares) =~= self@);
            opened_runs(this.merge, all, shares);
        }
        Ok((readers, this.merge))
    }

    /// Ends the insertions and starts to yield the entries, in the order of their
    /// keys, each key once.
    pub fn into_iter(self) -> (r: Result<MergerIter<CC::Chunk, MF>, Error<U>>)
        requires
            self.wf(),
        ensures
            match r {
                Ok(iter) => {
                    &&& iter.wf()
                    &&& !iter.unmerged()
                    &&& iter.merge_fn() == self.merge_fn()
                    &&& iter.read_faults().subset_of(self.creation().chunk_faults())
                    &&& can_create(self.creation())
                    &&& iter.compressed_with(self.settings().chunk_compression_type)
                    &&& exists|run: Seq<KeyVal>|
                        {
                            &&& #[trigger] dumps_as(
                                self.merge_fn(),
                                self.settings().chunk_compression_type,
                                self.in_memory(),
                                run,
                            )
                            &&& iter.sources() == run_sources(self.runs().push(run))
                        }
                    &&& sorts_into(self.merge_fn(), iter.sources(), self@)
                },
                Err(e) => dump_failure(&self, r),
            },
    {
        let (readers, merge) = match self.into_readers() {
            Ok((readers, merge)) => (readers, merge),
            Err(e) => return Err(e),
        };
        proof {
            let sources = opened_sources(streams(readers@))->Ok_0;
            assert forall|out: Seq<KeyVal>| #[trigger]
                merges_into(merge, sources, out) implies sorts_out(merge, out, self@) by {
                merge_of_runs(merge, sources, self@, out);
            }
        }
        let mut builder = MergerBuilder::new(merge);
        builder.extend(readers);
        assert(builder.readers() =~= readers@);
        match builder.build().into_merge_iter() {
            Ok(iter) => Ok(iter),
            Err(e) => Err(e.convert_merge_error()),
        }
    }

    /// Ends the insertions and writes the entries, in the order of their keys, each
    /// key once.
    pub fn write_into<W: Write>(self, writer: &mut Writer<W>) -> (r: Result<(), Error<U>>)
        requires
            self.wf(),
            old(writer).wf(),
        ensures
            final(writer).write_faults().subset_of(old(writer).write_faults()),
            !fails_with(r, old(writer).write_faults()) ==> final(writer).wf(),
            ({
                // What was in memory could not be dumped.
                ||| dump_failure(&self, r) && *final(writer) == *old(writer)
                // It was dumped as a run, and the runs were merged into the writer.
                ||| exists|run: Seq<KeyVal>|
                    {
                        &&& #[trigger] dumps_as(
                            self.merge_fn(),
                            self.settings().chunk_compression_type,
                            self.in_memory(),
                            run,
                        )
                        &&& can_create(self.creation())
                        &&& runs_write_relation(
                            self.merge_fn(),
                            self.creation(),
                            self.runs().push(run),
                            old(writer)@,
                            old(writer).write_faults(),
                            r,
                            final(writer)@,
                        )
                        &&& !faulted(r) ==> sort_write_relation(
                            self.merge_fn(),
                            self@,
                            old(writer)@,
                            r,
                            final(writer)@,
                        )
                    }
            }),
    {
        let (readers, merge) = match self.into_readers() {
            Ok((readers, merge)) => (readers, merge),
            Err(e) => return Err(e),
        };
        let ghost w0 = writer@;
        let ghost run = choose|run: Seq<KeyVal>|
            {
                &&& #[trigger] dumps_as(
                    self.merge_fn(),
                    self.settings().chunk_compression_type,
                    self.in_memory(),
                    run,
                )
                &&& streams(readers@) == run_streams(self.runs().push(run))
            };
        let ghost sources = run_sources(self.runs().push(run));
        let r = merge_into(readers, &merge, writer);
        proof {
            assert(dumps_as(
                self.merge_fn(),
                self.settings().chunk_compression_type,
                self.in_memory(),
                run,
            ));
            assert(runs_write_relation(
                self.merge_fn(),
                self.creation(),
                self.runs().push(run),
                w0,
                old(writer).write_faults(),
                r,
                writer@,
            ));
            if !faulted(r) {
                runs_write_sorts(
                    merge,
                    sources,
                    self@,
                    w0,
                    r,
                    writer@,
                );
            }
        }
        r
    }
}

/// The sizes and the settings of a sorter that is not told otherwise: a buffer of 128 KiB
/// that may grow and is dumped at 1 GiB, never below 10 MiB, and chunks that are merged
/// when there are 25, and are not compressed.
pub proof fn sizes_and_settings()
    ensures
        INITIAL_SORTER_VEC_SIZE == 128 * 1024,
        DEFAULT_SORTER_MEMORY == 1024 * 1024 * 1024,
        MIN_SORTER_MEMORY == 10 * 1024 * 1024,
        default_settings().dump_threshold == 1024 * 1024 * 1024,
        default_settings().allow_realloc,
        default_settings().max_nb_chunks == 25,
        default_settings().chunk_compression_type is Uncompressed,
        DEFAULT_BLOCK_SIZE == 8 * 1024,
{
}

/// The buffer is of 128 KiB at first where it may grow, and of the threshold where it may
/// not, rounded up to a whole number of bounds.
pub proof fn first_buffer<MF, CC: ChunkCreation, U>(builder: &SorterBuilder<MF, CC>) where
    MF: for <'a>Fn(&[u8], &[Cow<'a, [u8]>]) -> Result<Cow<'a, [u8]>, U>,

    ensures
        builder.settings().allow_realloc ==> 128 * 1024 <= builder.initial_capacity() < 128 * 1024
            + bound_size(),
        !builder.settings().allow_realloc ==> builder.settings().dump_threshold
            <= builder.initial_capacity() < builder.settings().dump_threshold + bound_size(),
{
    let count = rounding_up(INITIAL_SORTER_VEC_SIZE as nat);
    let count = rounding_up(builder.settings().dump_threshold as nat);
}

/// The buffer is dumped before an entry only where the entry does not fit into it, and
/// always there where it may not grow or has reached the threshold. Otherwise it grows.
pub proof fn when_to_dump<MF, CC: ChunkCreation>(
    sorter: &Sorter<MF, CC>,
    key: Seq<u8>,
    val: Seq<u8>,
)
    ensures
        ({
            let size = bound_size() + key.len() + val.len();
            let room = sorter.capacity() - sorter.used();
            &&& size <= room ==> {
                &&& !sorter.dumps(key, val)
                &&& sorter.capacity_for(key, val) == sorter.capacity()
                &&& sorter.need(key, val) == sorter.used() + size
            }
            &&& size > room && sorter.settings().allow_realloc && sorter.capacity()
                < sorter.settings().dump_threshold ==> {
                &&& !sorter.dumps(key, val)
                &&& sorter.need(key, val) == sorter.used() + size
                &&& sorter.capacity_for(key, val) == doubled(
                    sorter.capacity(),
                    (sorter.used() + size) as nat,
                )
            }
            &&& size > room && (!sorter.settings().allow_realloc || sorter.capacity()
                >= sorter.settings().dump_threshold) ==> {
                &&& sorter.dumps(key, val)
                &&& sorter.need(key, val) == size
                &&& size <= sorter.capacity() ==> sorter.capacity_for(key, val)
                    == sorter.capacity()
                &&& size > sorter.capacity() ==> sorter.capacity_for(key, val) == doubled(
                    sorter.capacity(),
                    size as nat,
                )
            }
        }),
{
}

/// Every entry whose key and value are each shorter than 4 GiB can be inserted where there
/// is room for it, or twice what is needed is a size that a machine can allocate.
pub proof fn what_can_be_inserted<MF, CC: ChunkCreation>(
    sorter: &Sorter<MF, CC>,
    key: Seq<u8>,
    val: Seq<u8>,
)
    requires
        key.len() < 0x1_0000_0000,
        val.len() < 0x1_0000_0000,
    ensures
        sorter.used() + bound_size() + key.len() + val.len() <= sorter.capacity()
            ==> sorter.can_take(key, val),
        sorter.capacity() > 0 && 2 * (sorter.used() + bound_size() + key.len() + val.len())
            <= isize::MAX ==> sorter.can_take(key, val),
{
    if sorter.capacity() > 0 {
        doubled_bounds(sorter.capacity(), sorter.need(key, val));
        if sorter.need(key, val) > sorter.capacity() {
            assert(sorter.capacity_for(key, val) < 2 * sorter.need(key, val));
        }
    }
}

/// There are few chunks as long as there are fewer than may be, or one.
pub proof fn few_chunks<MF, CC: ChunkCreation>(sorter: &Sorter<MF, CC>)
    ensures
        sorter.chunk_count() == sorter.runs().len(),
        sorter.has_few_chunks() && sorter.runs().len() > 1 ==> sorter.runs().len()
            < sorter.settings().max_nb_chunks,
        sorter.runs().len() < sorter.settings().max_nb_chunks ==> sorter.has_few_chunks(),
        sorter.runs().len() <= 1 ==> sorter.has_few_chunks(),
{
}

/// A sorter with the same entries as another has the same in memory and in its chunks.
pub proof fn nothing_is_lost<MF, CC: ChunkCreation>(a: &Sorter<MF, CC>, b: &Sorter<MF, CC>)
    requires
        a.same_entries(b),
    ensures
        a@ == b@,
        a.runs() == b.runs(),
        a.in_memory() == b.in_memory(),
        a.dumped() == b.dumped(),
        a.capacity() == b.capacity(),
        a.used() == b.used(),
{
}

/// A sorter with the same parts as another has its settings, its merge function and what
/// makes its chunks.
pub proof fn same_sorter<MF, CC: ChunkCreation>(a: &Sorter<MF, CC>, b: &Sorter<MF, CC>)
    requires
        a.same_parts(b),
    ensures
        a.settings() == b.settings(),
        a.merge_fn() == b.merge_fn(),
        a.creation() == b.creation(),
{
}

/// All that was inserted is what was dumped and then what is in memory.
pub proof fn dumped_and_in_memory<MF, CC: ChunkCreation>(sorter: &Sorter<MF, CC>)
    ensures
        sorter@ == sorter.dumped() + sorter.in_memory(),
        sorter@.len() == sorter.dumped().len() + sorter.in_memory().len(),
{
}

/// Where no chunk can be made, dumping fails with the error of making one.
pub proof fn dump_without_chunk<MF, CC, U, T>(
    sorter: &Sorter<MF, CC>,
    r: Result<T, Error<U>>,
) -> (e: CC::Error) where
    MF: for <'a>Fn(&[u8], &[Cow<'a, [u8]>]) -> Result<Cow<'a, [u8]>, U>,
    CC: ChunkCreation,

    requires
        dump_failure(sorter, r),
        forall|chunk: CC::Chunk|
            !#[trigger] call_ensures(
                CC::create,
                (&sorter.creation(),),
                Ok::<CC::Chunk, CC::Error>(chunk),
            ),
    ensures
        call_ensures(CC::create, (&sorter.creation(),), Err::<CC::Chunk, CC::Error>(e)),
        r == Err::<T, Error<U>>(converted::<U>(e.into_spec())),
{
    assert(!can_create(sorter.creation()));
    choose|e: CC::Error|
        {
            &&& #[trigger] call_ensures(
                CC::create,
                (&sorter.creation(),),
                Err::<CC::Chunk, CC::Error>(e),
            )
            &&& r == Err::<T, Error<U>>(converted::<U>(e.into_spec()))
        }
}

/// Where no chunk can be made, merging chunks fails with the error of making one, and the
/// chunks are kept.
pub proof fn chunks_kept_without_chunk<MF, CC, U>(
    merge: MF,
    creation: CC,
    compression: CompressionType,
    before: Seq<Seq<KeyVal>>,
    r: Result<(), Error<U>>,
    after: Seq<Seq<KeyVal>>,
) -> (e: CC::Error) where
    MF: for <'a>Fn(&[u8], &[Cow<'a, [u8]>]) -> Result<Cow<'a, [u8]>, U>,
    CC: ChunkCreation,

    requires
        chunk_merge_failure(merge, creation, compression, before, r, after),
        forall|chunk: CC::Chunk|
            !#[trigger] call_ensures(
                CC::create,
                (&creation,),
                Ok::<CC::Chunk, CC::Error>(chunk),
            ),
    ensures
        call_ensures(CC::create, (&creation,), Err::<CC::Chunk, CC::Error>(e)),
        r == Err::<(), Error<U>>(converted::<U>(e.into_spec())),
        after == before,
{
    assert(!can_create(creation));
    choose|e: CC::Error|
        {
            &&& #[trigger] call_ensures(CC::create, (&creation,), Err::<CC::Chunk, CC::Error>(e))
            &&& r == Err::<(), Error<U>>(converted::<U>(e.into_spec()))
        }
}

/// Where dumping entries stops and nothing faults, the merge function failed on all values
/// of a key of them, or it made something of all values of a key that is too long for the
/// chunk. There is no other error.
pub proof fn why_a_dump_stops<MF, U>(
    merge: MF,
    compression: CompressionType,
    entries: Seq<KeyVal>,
    e: Error<U>,
) -> (key: Seq<u8>) where MF: for <'a>Fn(&[u8], &[Cow<'a, [u8]>]) -> Result<Cow<'a, [u8]>, U>
    requires
        dump_stops(merge, compression, entries, e),
    ensures
        vals_of(entries, key).len() > 0,
        match e {
            Error::Merge(failure) => merges_to(
                merge,
                key,
                vals_of(entries, key),
                Err::<Seq<u8>, U>(failure),
            ),
            Error::Io(IoError::InvalidInput) => exists|val: Seq<u8>|
                {
                    &&& #[trigger] merges_to(merge, key, vals_of(entries, key), Ok::<_, U>(val))
                    &&& compression is Uncompressed ==> key.len() >= 0x1_0000_0000 || val.len()
                        >= 0x1_0000_0000
                    &&& too_long(compression, DEFAULT_BLOCK_SIZE, (key, val))
                },
            _ => false,
        },
{
    let (run, key) = choose|run: Seq<KeyVal>, key: Seq<u8>|
        {
            &&& #[trigger] merged_below(merge, run, entries, key)
            &&& accepts_all(blank_chunk(compression), run)
            &&& vals_of(entries, key).len() > 0
            &&& stops_at(
                merge,
                inserted_all(blank_chunk(compression), run),
                key,
                vals_of(entries, key),
                e,
            )
        };
    let w = inserted_all(blank_chunk(compression), run);
    if e matches Error::Io(IoError::InvalidInput) {
        let val = choose|val: Seq<u8>|
            #[trigger] merges_to(merge, key, vals_of(entries, key), Ok::<_, U>(val)) && !w.accepts(
                (key, val),
            );
        assert(encoded(Seq::empty()) =~= Seq::empty());
        inserted_all_not_full(blank_chunk(compression), run);
        inserted_all_entries(blank_chunk(compression), run);
        refused_too_long(w, (key, val));
        assert(merges_to(merge, key, vals_of(entries, key), Ok::<_, U>(val)));
    }
    key
}

/// A chunk is a file of the compression that was asked for, and of blocks of the default
/// size. Without compression its run is read back from it, one entry after the other.
pub proof fn chunk_is_read_back(run: Seq<KeyVal>) -> (views: Seq<ReaderView>)
    requires
        run.len() > 0,
        forall|i: int|
            0 <= i < run.len() ==> (#[trigger] run[i]).0.len() < 0x1_0000_0000 && run[i].1.len()
                < 0x1_0000_0000,
        encoded(run).len() <= usize::MAX,
    ensures
        open_file(chunk_file(CompressionType::Uncompressed, run)) == (Opened::At {
            view: views[0],
        }),
        views.len() == run.len() + 1,
        forall|i: int| #![trigger run[i]]
            0 <= i < run.len() ==> step(views[i]) == (Step::Entry {
                entry: run[i],
                next: views[i + 1],
            }),
        step(views.last()) is End || step(views.last()) is EmptyBlock,
{
    reveal(chunk_file);
    uncompressed_is_read_back(blank_chunk(CompressionType::Uncompressed), run)
}

/// A chunk that is not written yet is of the compression that was asked for, and holds
/// nothing.
pub proof fn new_chunk(compression: CompressionType)
    ensures
        blank_chunk(compression).compression == compression,
        blank_chunk(compression).block_size == 8 * 1024,
        blank_chunk(compression).start.len() == 0,
        blank_chunk(compression).blocks.len() == 0,
        blank_chunk(compression).current.len() == 0,
{
}

/// A builder with the same parts as another has its merge function and what makes its
/// chunks.
pub proof fn same_builder<MF, CC>(a: &SorterBuilder<MF, CC>, b: &SorterBuilder<MF, CC>)
    requires
        a.same_parts(b),
    ensures
        a.merge_fn() == b.merge_fn(),
        a.creation() == b.creation(),
{
}

} // verus!
