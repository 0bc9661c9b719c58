//! Merging the entries of several files into one run of entries.

use crate::compression::CompressionType;
use crate::error::{converted, Error, IoError};
use crate::format::{stream, KeyVal, Stream};
use crate::io::{Read, Write};
use crate::merge::{
    after_rounds, all_headed, call_merge, end_error, entry_count, gather, gather_progress, gathered,
    head_key, least, left_broken, left_by_fault, merge_relation, merges_to, opened_sources,
    opened_sources_prefix, round_yields, rounds_yield, taken, taken_progress, total, values,
};
use crate::order::{compare_keys, key_lt, same_bytes, KeyOrder};
use crate::reader::{entry_value, fails_with, faulted, Reader};
use crate::writer::{inserted_all, Writer, WriterView};
use std::borrow::Cow;
use std::cmp::Ordering;
use vstd::prelude::*;

verus! {

/// A source, with its next entry taken out of it.
pub struct Entry<R> {
    iter: Reader<R>,
    key: Vec<u8>,
    val: Vec<u8>,
}

impl<R: Read> Entry<R> {
    /// Whether the reader of the source is well-formed.
    pub closed spec fn wf(&self) -> bool {
        self.iter.wf()
    }

    /// The errors that reading can fail with and the bytes do not explain.
    pub closed spec fn read_faults(&self) -> Set<std::io::Error> {
        self.iter.read_faults()
    }

    /// The entry that was taken out.
    pub closed spec fn head(&self) -> KeyVal {
        (self.key@, self.val@)
    }

    /// What the source yields after that entry.
    pub closed spec fn rest(&self) -> Stream {
        stream(self.iter@)
    }

    /// The compression of the source.
    pub closed spec fn compression(&self) -> CompressionType {
        self.iter@.compression
    }

    /// What the source yields, that entry first.
    pub open spec fn all(&self) -> Stream {
        self.rest().after(self.head())
    }

    /// Takes the first entry out of a source; `None` if it has none.
    fn new(iter: Reader<R>) -> (r: Result<Option<Entry<R>>, Error>)
        requires
            iter.wf(),
        ensures
            r matches Ok(Some(entry)) ==> {
                &&& entry.wf()
                &&& entry.read_faults().subset_of(iter.read_faults())
                &&& entry.compression() == iter@.compression
            },
            if faulted(r) {
                fails_with(r, iter.read_faults())
            } else {
                let all = stream(iter@);
                if all.entries.len() > 0 {
                    r matches Ok(Some(entry)) && entry.all() == all
                } else if all.end is End {
                    r matches Ok(None)
                } else {
                    r matches Err(e) && e == end_error(all.end)
                }
            },
    {
        let mut entry = Entry { iter, key: Vec::new(), val: Vec::new() };
        match entry.fill() {
            Ok(true) => Ok(Some(entry)),
            Ok(false) => Ok(None),
            Err(e) => Err(e),
        }
    }

    /// Takes the next entry out of the source. Returns `false` if there is none.
    fn fill(&mut self) -> (r: Result<bool, Error>)
        requires
            old(self).wf(),
        ensures
            final(self).wf(),
            final(self).read_faults().subset_of(old(self).read_faults()),
            if faulted(r) {
                fails_with(r, old(self).read_faults())
            } else if old(self).rest().entries.len() > 0 {
                (r matches Ok(true)) && final(self).all() == old(self).rest()
            } else if old(self).rest().end is End {
                r matches Ok(false)
            } else {
                r matches Err(e) && e == end_error(old(self).rest().end)
            },
            !(r matches Ok(true)) ==> final(self).head() == (Seq::<u8>::empty(), Seq::<
                u8,
            >::empty()),
            final(self).compression() == old(self).compression(),
    {
        self.key.clear();
        self.val.clear();
        assert(self.key@ =~= Seq::empty());
        assert(self.val@ =~= Seq::empty());
        proof {
            self.iter.wf_sound();
        }
        match self.iter.checked_next() {
            Ok(Some((key, val))) => {
                self.key.extend_from_slice(key);
                self.val.extend_from_slice(val);
                assert(self.key@ =~= key@);
                assert(self.val@ =~= val@);
                Ok(true)
            },
            Ok(None) => Ok(false),
            Err(e) => Err(e),
        }
    }
}

/// Entries are the same where their keys are.
impl<R: Read> PartialEq for Entry<R> {
    fn eq(&self, other: &Entry<R>) -> (r: bool) {
        same_bytes(self.key.as_slice(), other.key.as_slice())
    }
}

impl<R: Read> vstd::std_specs::cmp::PartialEqSpecImpl for Entry<R> {
    open spec fn obeys_eq_spec() -> bool {
        true
    }

    open spec fn eq_spec(&self, other: &Entry<R>) -> bool {
        self.head().0 == other.head().0
    }
}

impl<R: Read> Eq for Entry<R> {

}

/// Entries are ordered by their keys.
impl<R: Read> PartialOrd for Entry<R> {
    fn partial_cmp(&self, other: &Entry<R>) -> (r: Option<Ordering>) {
        match compare_keys(self.key.as_slice(), other.key.as_slice()) {
            KeyOrder::Less => Some(Ordering::Less),
            KeyOrder::Equal => Some(Ordering::Equal),
            KeyOrder::Greater => Some(Ordering::Greater),
        }
    }
}

impl<R: Read> vstd::std_specs::cmp::PartialOrdSpecImpl for Entry<R> {
    open spec fn obeys_partial_cmp_spec() -> bool {
        true
    }

    open spec fn partial_cmp_spec(&self, other: &Entry<R>) -> Option<Ordering> {
        if key_lt(self.head().0, other.head().0) {
            Some(Ordering::Less)
        } else if self.head().0 == other.head().0 {
            Some(Ordering::Equal)
        } else {
            Some(Ordering::Greater)
        }
    }
}

/// The sources of a merge, with what has been gathered from them for one key.
struct MergeHeap<R> {
    heap: Vec<Entry<R>>,
    cur_key: Vec<u8>,
    cur_vals: Vec<Cow<'static, [u8]>>,
    merged_val: Vec<u8>,
    pending: bool,
}

/// The errors that reading sources can fail with and the bytes do not explain.
spec fn entry_faults<R: Read>(entries: Seq<Entry<R>>) -> Set<std::io::Error> {
    Set::new(
        |e: std::io::Error|
            exists|i: int| #![trigger entries[i]]
                0 <= i < entries.len() && entries[i].read_faults().contains(e),
    )
}

impl<R: Read> MergeHeap<R> {
    /// Whether the readers of the sources are well-formed.
    spec fn wf(&self) -> bool {
        forall|i: int| #![trigger self.heap@[i]]
            0 <= i < self.heap@.len() ==> self.heap@[i].wf()
    }

    /// The errors that reading can fail with and the bytes do not explain.
    spec fn read_faults(&self) -> Set<std::io::Error> {
        entry_faults(self.heap@)
    }

    /// Whether all sources are compressed alike.
    spec fn compressed_with(&self, compression: CompressionType) -> bool {
        forall|i: int| #![trigger self.heap@[i]]
            0 <= i < self.heap@.len() ==> self.heap@[i].compression() == compression
    }

    /// What the sources yield.
    spec fn sources(&self) -> Seq<Stream> {
        self.heap@.map_values(|entry: Entry<R>| entry.all())
    }

    proof fn sources_headed(&self)
        ensures
            all_headed(self.sources()),
            self.sources().len() == self.heap@.len(),
            forall|i: int| #![trigger self.sources()[i]]
                0 <= i < self.heap@.len() ==> self.sources()[i] == self.heap@[i].all()
                    && self.sources()[i].entries[0] == self.heap@[i].head(),
    {
    }

    /// Which source is the first with the least key at its head.
    fn least_entry(&self) -> (r: usize)
        requires
            self.heap@.len() > 0,
        ensures
            r == least(self.sources(), self.heap@.len() as int),
            r < self.heap@.len(),
    {
        proof {
            self.sources_headed();
        }
        let mut best: usize = 0;
        let mut n: usize = 1;
        while n < self.heap.len()
            invariant
                1 <= n <= self.heap@.len(),
                best < n,
                best == least(self.sources(), n as int),
                self.sources().len() == self.heap@.len(),
                forall|i: int| #![trigger self.sources()[i]]
                    0 <= i < self.heap@.len() ==> self.sources()[i] == self.heap@[i].all()
                        && self.sources()[i].entries[0] == self.heap@[i].head(),
            decreases self.heap@.len() - n,
        {
            assert(head_key(self.sources()[n as int]) == self.heap@[n as int].key@);
            assert(head_key(self.sources()[best as int]) == self.heap@[best as int].key@);
            if self.heap[n] < self.heap[best] {
                best = n;
            }
            n = n + 1;
        }
        best
    }

    /// Gathers the values of the least key.
    fn gather(&mut self) -> (r: Result<(), Error>)
        requires
            old(self).wf(),
        ensures
            final(self).wf(),
            final(self).read_faults().subset_of(old(self).read_faults()),
            forall|c: CompressionType|
                #![trigger old(self).compressed_with(c)]
                #![trigger final(self).compressed_with(c)]
                old(self).compressed_with(c) ==> final(self).compressed_with(c),
            if faulted(r) {
                &&& fails_with(r, old(self).read_faults())
                &&& old(self).sources().len() > 0
                &&& left_by_fault(old(self).sources(), old(self).pending, final(self).sources())
                &&& final(self).pending
            } else {
                let g = gather(old(self).sources(), Seq::empty(), Seq::empty(), old(self).pending);
                match g.failure {
                    Some(end) => {
                        &&& r matches Err(e) && e == end_error(end)
                        &&& left_broken(g.sources, final(self).sources())
                        &&& final(self).pending
                    },
                    None => {
                        &&& r is Ok
                        &&& final(self).sources() == g.sources
                        &&& final(self).cur_key@ == g.key
                        &&& values(final(self).cur_vals@) == g.vals
                        &&& final(self).pending == g.pending
                    },
                }
            },
    {
        self.cur_key.clear();
        self.cur_vals.clear();
        assert(values(self.cur_vals@) =~= Seq::empty());
        let ghost g = gather(old(self).sources(), Seq::empty(), Seq::empty(), old(self).pending);
        while self.heap.len() > 0
            invariant
                self.wf(),
                self.read_faults().subset_of(old(self).read_faults()),
                forall|c: CompressionType|
                    #![trigger old(self).compressed_with(c)]
                    #![trigger self.compressed_with(c)]
                    old(self).compressed_with(c) ==> self.compressed_with(c),
                old(self).heap@.len() == 0 ==> self.heap@.len() == 0,
                self.cur_key@.len() > 0 ==> self.pending,
                gather(self.sources(), self.cur_key@, values(self.cur_vals@), self.pending) == g,
                g == gather(
                    old(self).sources(),
                    Seq::empty(),
                    Seq::empty(),
                    old(self).pending,
                ),
            decreases entry_count(self.sources()),
        {
            let ghost sources = self.sources();
            let ghost heap = self.heap@;
            let ghost key = self.cur_key@;
            let ghost vals = values(self.cur_vals@);
            let ghost pending = self.pending;
            let i = self.least_entry();
            proof {
                self.sources_headed();
                taken_progress(sources, i as int);
                assert(sources[i as int].entries[0] == heap[i as int].head());
                assert(sources[i as int].entries.drop_first() =~= heap[i as int].rest().entries);
            }
            if self.cur_key.is_empty() {
                self.cur_key.extend_from_slice(self.heap[i].key.as_slice());
                assert(self.cur_key@ =~= heap[i as int].key@);
                self.cur_vals.clear();
                self.pending = true;
            }
            let ghost before = if key.len() == 0 {
                Seq::<Seq<u8>>::empty()
            } else {
                vals
            };
            assert(values(self.cur_vals@) =~= before);
            if !same_bytes(self.cur_key.as_slice(), self.heap[i].key.as_slice()) {
                return Ok(());
            }
            let mut val: Vec<u8> = Vec::new();
            std::mem::swap(&mut val, &mut self.heap[i].val);
            self.cur_vals.push(Cow::Owned(val));
            assert(values(self.cur_vals@) =~= before.push(heap[i as int].val@));
            match self.heap[i].fill() {
                Ok(filled) => {
                    if !filled {
                        self.heap.remove(i);
                    }
                },
                Err(e) => {
                    proof {
                        let after = self.sources();
                        assert(after =~= sources.update(i as int, after[i as int]));
                        assert(self.heap@[i as int].head() == after[i as int].entries[0]);
                        assert(left_broken(sources, after));
                        assert(gather(sources, key, vals, pending) == g);
                    }
                    return Err(e);
                },
            }
            assert(self.sources() =~= taken(sources, i as int));
        }
        Ok(())
    }

    /// Gathers the values of the least key and merges them.
    fn next<MF, U>(&mut self, merge: &MF) -> (r: Result<
        Option<(&[u8], &[u8])>,
        Error<U>,
    >) where MF: for <'a>Fn(&[u8], &[Cow<'a, [u8]>]) -> Result<Cow<'a, [u8]>, U>
        requires
            old(self).wf(),
            total(*merge),
        ensures
            final(self).wf(),
            final(self).read_faults().subset_of(old(self).read_faults()),
            forall|c: CompressionType|
                #![trigger old(self).compressed_with(c)]
                #![trigger final(self).compressed_with(c)]
                old(self).compressed_with(c) ==> final(self).compressed_with(c),
            if faulted(r) {
                &&& fails_with(r, old(self).read_faults())
                &&& old(self).sources().len() > 0
                &&& left_by_fault(old(self).sources(), old(self).pending, final(self).sources())
                &&& final(self).pending
            } else {
                merge_relation(
                    *merge,
                    old(self).sources(),
                    old(self).pending,
                    entry_value(r),
                    final(self).sources(),
                    final(self).pending,
                )
            },
    {
        match self.gather() {
            Ok(()) => {},
            Err(e) => return Err(e.convert_merge_error()),
        }
        if self.pending {
            match call_merge(merge, self.cur_key.as_slice(), self.cur_vals.as_slice()) {
                Ok(val) => {
                    self.merged_val = val;
                },
                Err(e) => return Err(Error::Merge(e)),
            }
            self.pending = false;
            Ok(Some((self.cur_key.as_slice(), self.merged_val.as_slice())))
        } else {
            Ok(None)
        }
    }

    /// Takes the first entry out of each source. Sources without entries are left
    /// out.
    fn new(readers: Vec<Reader<R>>) -> (r: Result<MergeHeap<R>, Error>)
        requires
            forall|i: int| #![trigger readers@[i]] 0 <= i < readers@.len() ==> readers@[i].wf(),
        ensures
            if faulted(r) {
                fails_with(r, all_faults(readers@))
            } else {
                match opened_sources(streams(readers@)) {
                    Ok(sources) => r matches Ok(heap) && {
                        &&& heap.wf()
                        &&& heap.sources() == sources
                        &&& !heap.pending
                        &&& heap.read_faults().subset_of(all_faults(readers@))
                        &&& forall|c: CompressionType|
                            all_compressed_with(readers@, c) ==> #[trigger] heap.compressed_with(c)
                    },
                    Err(end) => r matches Err(e) && e == end_error(end),
                }
            },
    {
        let mut heap: Vec<Entry<R>> = Vec::new();
        let ghost all = streams(readers@);
        let mut rest = readers;
        let ghost mut n: int = 0;
        assert(heap@.map_values(|entry: Entry<R>| entry.all()) =~= Seq::empty());
        assert(readers@.skip(0) =~= readers@);
        while rest.len() > 0
            invariant
                0 <= n <= readers@.len(),
                all == streams(readers@),
                rest@ == readers@.skip(n),
                forall|i: int| #![trigger readers@[i]]
                    0 <= i < readers@.len() ==> readers@[i].wf(),
                forall|i: int| #![trigger heap@[i]] 0 <= i < heap@.len() ==> heap@[i].wf(),
                entry_faults(heap@).subset_of(all_faults(readers@)),
                forall|c: CompressionType, i: int|
                    #![trigger all_compressed_with(readers@, c), heap@[i]]
                    all_compressed_with(readers@, c) && 0 <= i < heap@.len()
                        ==> heap@[i].compression() == c,
                opened_sources(all.take(n)) matches Ok(sources) && sources == heap@.map_values(
                    |entry: Entry<R>| entry.all(),
                ),
            decreases rest@.len(),
        {
            let source = rest.remove(0);
            let ghost before = heap@;
            proof {
                assert(source == readers@[n]);
                assert(rest@ =~= readers@.skip(n + 1));
                assert(all.take(n + 1).drop_last() =~= all.take(n));
                assert(all.take(n + 1).last() == stream(source@));
                opened_sources_prefix(all, n + 1);
            }
            match Entry::new(source) {
                Ok(Some(entry)) => {
                    heap.push(entry);
                    assert(heap@.map_values(|entry: Entry<R>| entry.all()) =~= before.map_values(
                        |entry: Entry<R>| entry.all(),
                    ).push(entry.all()));
                },
                Ok(None) => {},
                Err(e) => return Err(e),
            }
            proof {
                n = n + 1;
            }
        }
        assert(all.take(n) =~= all);
        Ok(
            MergeHeap {
                heap,
                cur_key: Vec::new(),
                cur_vals: Vec::new(),
                merged_val: Vec::new(),
                pending: false,
            },
        )
    }
}

/// What readers yield.
pub open spec fn streams<R: Read>(readers: Seq<Reader<R>>) -> Seq<Stream> {
    readers.map_values(|reader: Reader<R>| stream(reader@))
}

/// The errors that reading with readers can fail with and the bytes do not explain.
pub open spec fn all_faults<R: Read>(readers: Seq<Reader<R>>) -> Set<std::io::Error> {
    Set::new(
        |e: std::io::Error|
            exists|i: int| #![trigger readers[i]]
                0 <= i < readers.len() && readers[i].read_faults().contains(e),
    )
}

/// Whether all readers read files that are compressed alike.
pub open spec fn all_compressed_with<R: Read>(
    readers: Seq<Reader<R>>,
    compression: CompressionType,
) -> bool {
    forall|i: int| #![trigger readers[i]]
        0 <= i < readers.len() ==> readers[i]@.compression == compression
}

/// Whether readers are well-formed.
pub open spec fn all_wf<R: Read>(readers: Seq<Reader<R>>) -> bool {
    forall|i: int| #![trigger readers[i]] 0 <= i < readers.len() ==> readers[i].wf()
}

/// The sources that are to be merged, and the function that merges values.
pub struct MergerBuilder<R, MF> {
    sources: Vec<Reader<R>>,
    merge: MF,
}

impl<R, MF> MergerBuilder<R, MF> {
    /// The sources.
    pub closed spec fn readers(&self) -> Seq<Reader<R>> {
        self.sources@
    }

    /// The merge function.
    pub closed spec fn merge_fn(&self) -> MF {
        self.merge
    }

    /// No sources yet.
    pub fn new(merge: MF) -> (builder: Self)
        ensures
            builder.readers() == Seq::<Reader<R>>::empty(),
            builder.merge_fn() == merge,
    {
        MergerBuilder { merge, sources: Vec::new() }
    }

    /// Adds a source.
    pub fn add(&mut self, source: Reader<R>) -> (r: &mut Self)
        ensures
            (*r).readers() == old(self).readers().push(source),
            (*r).merge_fn() == old(self).merge_fn(),
            *final(self) == *final(r),
    {
        self.push(source);
        self
    }

    /// Adds a source.
    pub fn push(&mut self, source: Reader<R>)
        ensures
            final(self).readers() == old(self).readers().push(source),
            final(self).merge_fn() == old(self).merge_fn(),
    {
        self.sources.push(source);
    }

    /// Adds sources.
    pub fn extend(&mut self, sources: Vec<Reader<R>>)
        ensures
            final(self).readers() == old(self).readers() + sources@,
            final(self).merge_fn() == old(self).merge_fn(),
    {
        let mut sources = sources;
        self.sources.append(&mut sources);
    }

    /// The merger of the sources.
    pub fn build(self) -> (merger: Merger<R, MF>)
        ensures
            merger.readers() == self.readers(),
            merger.merge_fn() == self.merge_fn(),
    {
        Merger { sources: self.sources, merge: self.merge }
    }
}

/// Sources that are to be merged.
pub struct Merger<R, MF> {
    sources: Vec<Reader<R>>,
    merge: MF,
}

impl<R, MF> Merger<R, MF> {
    /// The sources.
    pub closed spec fn readers(&self) -> Seq<Reader<R>> {
        self.sources@
    }

    /// The merge function.
    pub closed spec fn merge_fn(&self) -> MF {
        self.merge
    }

    /// A builder without sources.
    pub fn builder(merge: MF) -> (builder: MergerBuilder<R, MF>)
        ensures
            builder.readers() == Seq::<Reader<R>>::empty(),
            builder.merge_fn() == merge,
    {
        MergerBuilder::new(merge)
    }
}

impl<R: Read, MF> Merger<R, MF> {
    /// Starts to merge, which reads the first entry of every source.
    pub fn into_merge_iter(self) -> (r: Result<MergerIter<R, MF>, Error>)
        requires
            all_wf(self.readers()),
        ensures
            if faulted(r) {
                fails_with(r, all_faults(self.readers()))
            } else {
                match opened_sources(streams(self.readers())) {
                    Ok(sources) => r matches Ok(iter) && {
                        &&& iter.wf()
                        &&& iter.sources() == sources
                        &&& !iter.unmerged()
                        &&& iter.merge_fn() == self.merge_fn()
                        &&& iter.read_faults().subset_of(all_faults(self.readers()))
                        &&& forall|c: CompressionType|
                            all_compressed_with(self.readers(), c)
                                ==> #[trigger] iter.compressed_with(c)
                    },
                    Err(end) => r matches Err(e) && e == end_error(end),
                }
            },
    {
        match MergeHeap::new(self.sources) {
            Ok(heap) => Ok(MergerIter { merge: self.merge, heap }),
            Err(e) => Err(e),
        }
    }
}

/// Merges sources entry by entry.
pub struct MergerIter<R, MF> {
    merge: MF,
    heap: MergeHeap<R>,
}

impl<R: Read, MF> MergerIter<R, MF> {
    /// Whether the readers of the sources are well-formed.
    pub closed spec fn wf(&self) -> bool {
        self.heap.wf()
    }

    /// What the sources yield. Each has an entry at its head.
    pub closed spec fn sources(&self) -> Seq<Stream> {
        self.heap.sources()
    }

    /// Whether all sources are compressed alike.
    pub closed spec fn compressed_with(&self, compression: CompressionType) -> bool {
        self.heap.compressed_with(compression)
    }

    /// Whether values were gathered that the merge function has not merged.
    pub closed spec fn unmerged(&self) -> bool {
        self.heap.pending
    }

    /// The merge function.
    pub closed spec fn merge_fn(&self) -> MF {
        self.merge
    }

    /// The errors that reading can fail with and the bytes do not explain.
    pub closed spec fn read_faults(&self) -> Set<std::io::Error> {
        self.heap.read_faults()
    }

    /// Each source has an entry at its head.
    pub proof fn sources_headed(&self)
        ensures
            all_headed(self.sources()),
    {
        self.heap.sources_headed();
    }
}

impl<R, MF, U> MergerIter<R, MF> where
    R: Read,
    MF: for <'a>Fn(&[u8], &[Cow<'a, [u8]>]) -> Result<Cow<'a, [u8]>, U>,
 {
    /// Yields the least key that is left, with the value that the merge function
    /// makes of its values in the sources.
    pub fn next(&mut self) -> (r: Result<Option<(&[u8], &[u8])>, Error<U>>)
        requires
            old(self).wf(),
            total(old(self).merge_fn()),
        ensures
            final(self).wf(),
            final(self).merge_fn() == old(self).merge_fn(),
            final(self).read_faults().subset_of(old(self).read_faults()),
            forall|c: CompressionType|
                #![trigger old(self).compressed_with(c)]
                #![trigger final(self).compressed_with(c)]
                old(self).compressed_with(c) ==> final(self).compressed_with(c),
            if faulted(r) {
                &&& fails_with(r, old(self).read_faults())
                &&& old(self).sources().len() > 0
                &&& left_by_fault(old(self).sources(), old(self).unmerged(), final(self).sources())
                &&& final(self).unmerged()
            } else {
                merge_relation(
                    old(self).merge_fn(),
                    old(self).sources(),
                    old(self).unmerged(),
                    entry_value(r),
                    final(self).sources(),
                    final(self).unmerged(),
                )
            },
    {
        self.heap.next(&self.merge)
    }
}

/// Whether a writer can take entries one after the other.
#[verifier::opaque]
pub open spec fn accepts_all(w: WriterView, out: Seq<KeyVal>) -> bool {
    forall|j: int| #![trigger out[j]]
        0 <= j < out.len() ==> inserted_all(w, out.take(j)).accepts(out[j])
}

/// A writer can take no entries.
pub proof fn accepts_all_empty(w: WriterView)
    ensures
        accepts_all(w, Seq::empty()),
{
    reveal(accepts_all);
}

/// A writer that takes entries, and one more after them, takes all of these.
pub proof fn accepts_all_push(w: WriterView, out: Seq<KeyVal>, entry: KeyVal)
    requires
        accepts_all(w, out),
        inserted_all(w, out).accepts(entry),
    ensures
        accepts_all(w, out.push(entry)),
{
    reveal(accepts_all);
    let more = out.push(entry);
    assert forall|j: int| #![trigger more[j]] 0 <= j < more.len() implies inserted_all(
        w,
        more.take(j),
    ).accepts(more[j]) by {
        assert(more.take(j) =~= out.take(j));
        if j < out.len() {
            assert(more[j] == out[j]);
        } else {
            assert(out.take(j) =~= out);
        }
    }
}

/// Whether an error is what a merge into a writer stops with: a source fails, or
/// the merge function does, or the writer cannot take what it made; and `after` is
/// what becomes of the writer.
pub open spec fn stops<MF, U>(
    merge: MF,
    sources: Seq<Stream>,
    w: WriterView,
    e: Error<U>,
    after: WriterView,
) -> bool where MF: for <'a>Fn(&[u8], &[Cow<'a, [u8]>]) -> Result<Cow<'a, [u8]>, U> {
    let g = gathered(sources);
    match g.failure {
        Some(end) => e == converted::<U>(end_error(end)) && after == w,
        None => g.pending && match e {
            Error::Merge(e) => merges_to(merge, g.key, g.vals, Err::<Seq<u8>, U>(e)) && after == w,
            Error::Io(IoError::InvalidInput) => exists|val: Seq<u8>|
                {
                    &&& #[trigger] merges_to(merge, g.key, g.vals, Ok::<_, U>(val))
                    &&& !w.accepts((g.key, val))
                    &&& after == w.refused((g.key, val))
                },
            _ => false,
        },
    }
}

/// Whether `out` is what a merge of sources writes before it answers `r`, and
/// `after` is what becomes of the writer.
pub open spec fn writes_out<MF, U>(
    merge: MF,
    sources: Seq<Stream>,
    w: WriterView,
    out: Seq<KeyVal>,
    r: Result<(), Error<U>>,
    after: WriterView,
) -> bool where MF: for <'a>Fn(&[u8], &[Cow<'a, [u8]>]) -> Result<Cow<'a, [u8]>, U> {
    &&& rounds_yield(merge, sources, out)
    &&& accepts_all(w, out)
    &&& match r {
        Ok(()) => after_rounds(sources, out.len()).len() == 0 && after == inserted_all(w, out),
        Err(e) => stops(merge, after_rounds(sources, out.len()), inserted_all(w, out), e, after),
    }
}

/// Whether `after` is a writer with some of what a merge of sources yields, from the
/// first entry on.
pub open spec fn writes_some<MF, U>(
    merge: MF,
    sources: Seq<Stream>,
    w: WriterView,
    after: WriterView,
) -> bool where MF: for <'a>Fn(&[u8], &[Cow<'a, [u8]>]) -> Result<Cow<'a, [u8]>, U> {
    exists|out: Seq<KeyVal>|
        {
            &&& #[trigger] rounds_yield(merge, sources, out)
            &&& accepts_all(w, out)
            &&& after == inserted_all(w, out)
        }
}

impl<R: Read> MergeHeap<R> {
    /// Merges all that is left into a writer.
    fn write_into<MF, U, W: Write>(self, merge: &MF, writer: &mut Writer<W>) -> (r: Result<
        (),
        Error<U>,
    >) where MF: for <'a>Fn(&[u8], &[Cow<'a, [u8]>]) -> Result<Cow<'a, [u8]>, U>
        requires
            self.wf(),
            !self.pending,
            total(*merge),
            old(writer).wf(),
        ensures
            final(writer).write_faults().subset_of(old(writer).write_faults()),
            if faulted(r) {
                ||| fails_with(r, old(writer).write_faults())
                ||| {
                    &&& fails_with(r, self.read_faults())
                    &&& final(writer).wf()
                    &&& writes_some(*merge, self.sources(), old(writer)@, final(writer)@)
                }
            } else {
                &&& final(writer).wf()
                &&& exists|out: Seq<KeyVal>| #[trigger]
                    writes_out(*merge, self.sources(), old(writer)@, out, r, final(writer)@)
            },
    {
        let mut heap = self;
        let ghost mut out: Seq<KeyVal> = Seq::empty();
        let ghost sources = self.sources();
        proof {
            accepts_all_empty(writer@);
        }
        loop
            invariant
                heap.wf(),
                !heap.pending,
                total(*merge),
                heap.read_faults().subset_of(self.read_faults()),
                writer.write_faults().subset_of(old(writer).write_faults()),
                writer.wf(),
                writer@ == inserted_all(old(writer)@, out),
                sources == self.sources(),
                rounds_yield(*merge, sources, out),
                accepts_all(old(writer)@, out),
                heap.sources() == after_rounds(sources, out.len()),
            decreases entry_count(heap.sources()),
        {
            let ghost before = heap.sources();
            proof {
                heap.sources_headed();
                gather_progress(before, Seq::empty(), Seq::empty(), false);
            }
            match heap.next(merge) {
                Ok(Some((key, val))) => {
                    let ghost entry = (key@, val@);
                    proof {
                        assert(out.push(entry).drop_last() =~= out);
                        assert forall|j: int| #![trigger out.push(entry)[j]]
                            0 <= j < out.len() implies round_yields(
                            *merge,
                            after_rounds(sources, j as nat),
                            out.push(entry)[j],
                        ) by {
                            assert(out.push(entry)[j] == out[j]);
                        }
                    }
                    match writer.insert(key, val) {
                        Ok(()) => {},
                        Err(e) => {
                            let r: Result<(), Error<U>> = Err(e.convert_merge_error());
                            proof {
                                if !faulted(r) {
                                    assert(writes_out(
                                        *merge,
                                        sources,
                                        old(writer)@,
                                        out,
                                        r,
                                        writer@,
                                    ));
                                }
                            }
                            return r;
                        },
                    }
                    proof {
                        accepts_all_push(old(writer)@, out, entry);
                        out = out.push(entry);
                    }
                },
                Ok(None) => {
                    assert(writes_out(
                        *merge,
                        sources,
                        old(writer)@,
                        out,
                        Ok::<(), Error<U>>(()),
                        writer@,
                    ));
                    return Ok(());
                },
                Err(e) => {
                    let r: Result<(), Error<U>> = Err(e);
                    proof {
                        if faulted(r) {
                            assert(rounds_yield(*merge, sources, out));
                        } else {
                            assert(writes_out(*merge, sources, old(writer)@, out, r, writer@));
                        }
                    }
                    return r;
                },
            }
        }
    }
}

/// Whether `r` is what merging readers into a writer answers, where nothing
/// faults, and `after` is what becomes of the writer.
pub open spec fn merge_write_relation<R: Read, MF, U>(
    merge: MF,
    readers: Seq<Reader<R>>,
    before: WriterView,
    r: Result<(), Error<U>>,
    after: WriterView,
) -> bool where MF: for <'a>Fn(&[u8], &[Cow<'a, [u8]>]) -> Result<Cow<'a, [u8]>, U> {
    match opened_sources(streams(readers)) {
        Ok(sources) => exists|out: Seq<KeyVal>| #[trigger]
            writes_out(merge, sources, before, out, r, after),
        Err(end) => {
            &&& r matches Err(e) && e == converted::<U>(end_error(end))
            &&& after == before
        },
    }
}

/// Whether `after` is what becomes of a writer when merging readers into it ends
/// because a reader itself failed: what was merged before stands in it.
pub open spec fn merge_fault_relation<R: Read, MF, U>(
    merge: MF,
    readers: Seq<Reader<R>>,
    before: WriterView,
    after: WriterView,
) -> bool where MF: for <'a>Fn(&[u8], &[Cow<'a, [u8]>]) -> Result<Cow<'a, [u8]>, U> {
    match opened_sources(streams(readers)) {
        Ok(sources) => writes_some(merge, sources, before, after),
        Err(_) => after == before,
    }
}

/// Merges all entries of readers into a writer.
pub fn merge_into<R, MF, U, W>(readers: Vec<Reader<R>>, merge: &MF, writer: &mut Writer<W>) -> (r:
    Result<(), Error<U>>) where
    R: Read,
    MF: for <'a>Fn(&[u8], &[Cow<'a, [u8]>]) -> Result<Cow<'a, [u8]>, U>,
    W: Write,

    requires
        all_wf(readers@),
        total(*merge),
        old(writer).wf(),
    ensures
        final(writer).write_faults().subset_of(old(writer).write_faults()),
        if faulted(r) {
            ||| fails_with(r, old(writer).write_faults())
            ||| {
                &&& fails_with(r, all_faults(readers@))
                &&& final(writer).wf()
                &&& merge_fault_relation(*merge, readers@, old(writer)@, final(writer)@)
            }
        } else {
            &&& final(writer).wf()
            &&& merge_write_relation(*merge, readers@, old(writer)@, r, final(writer)@)
        },
{
    match MergeHeap::new(readers) {
        Ok(heap) => heap.write_into(merge, writer),
        Err(e) => {
            proof {
                if let Ok(sources) = opened_sources(streams(readers@)) {
                    let none = Seq::<KeyVal>::empty();
                    assert(rounds_yield(*merge, sources, none));
                    accepts_all_empty(writer@);
                }
            }
            Err(e.convert_merge_error())
        },
    }
}

impl<R, MF, U> Merger<R, MF> where
    R: Read,
    MF: for <'a>Fn(&[u8], &[Cow<'a, [u8]>]) -> Result<Cow<'a, [u8]>, U>,
 {
    /// Merges all entries of the sources into a writer.
    pub fn write_into<W: Write>(self, writer: &mut Writer<W>) -> (r: Result<(), Error<U>>)
        requires
            all_wf(self.readers()),
            total(self.merge_fn()),
            old(writer).wf(),
        ensures
            final(writer).write_faults().subset_of(old(writer).write_faults()),
            if faulted(r) {
                ||| fails_with(r, old(writer).write_faults())
                ||| {
                    &&& fails_with(r, all_faults(self.readers()))
                    &&& final(writer).wf()
                    &&& merge_fault_relation(
                        self.merge_fn(),
                        self.readers(),
                        old(writer)@,
                        final(writer)@,
                    )
                }
            } else {
                &&& final(writer).wf()
                &&& merge_write_relation(
                    self.merge_fn(),
                    self.readers(),
                    old(writer)@,
                    r,
                    final(writer)@,
                )
            },
    {
        merge_into(self.sources, &self.merge, writer)
    }
}

/// What readers yield is what each of them does.
pub proof fn streams_of_readers<R: Read>(readers: Seq<Reader<R>>, i: int)
    requires
        0 <= i < readers.len(),
    ensures
        streams(readers).len() == readers.len(),
        streams(readers)[i] == stream(readers[i]@),
{
}

} // verus!
