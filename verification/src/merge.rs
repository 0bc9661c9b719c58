//! What merging entries means.

use crate::error::{converted, Error, IoError};
use crate::format::{KeyVal, Stream, StreamEnd};
use crate::order::key_lt;
use std::borrow::Cow;
use vstd::prelude::*;
use vstd::slice::slice_to_vec;

verus! {

/// The bytes of values that are borrowed or owned.
pub open spec fn values(vals: Seq<Cow<'_, [u8]>>) -> Seq<Seq<u8>> {
    vals.map_values(|val: Cow<'_, [u8]>| val@)
}

/// The bytes of a merged value.
pub open spec fn merged_value<U>(r: Result<Cow<'_, [u8]>, U>) -> Result<Seq<u8>, U> {
    match r {
        Ok(val) => Ok(val@),
        Err(e) => Err(e),
    }
}

/// Whether a merge function can be called on every key and on all values.
pub open spec fn total<MF, U>(merge: MF) -> bool where
    MF: for <'a>Fn(&[u8], &[Cow<'a, [u8]>]) -> Result<Cow<'a, [u8]>, U>,
 {
    forall|key: &[u8], vals: &[Cow<'static, [u8]>]| #[trigger] call_requires(merge, (key, vals))
}

/// Whether a merge function can make `out` of the values of a key.
pub open spec fn merges_to<MF, U>(
    merge: MF,
    key: Seq<u8>,
    vals: Seq<Seq<u8>>,
    out: Result<Seq<u8>, U>,
) -> bool where MF: for <'a>Fn(&[u8], &[Cow<'a, [u8]>]) -> Result<Cow<'a, [u8]>, U> {
    exists|k: &[u8], vs: &[Cow<'static, [u8]>], r: Result<Cow<'static, [u8]>, U>|
        {
            &&& #[trigger] call_ensures(merge, (k, vs), r)
            &&& k@ == key
            &&& values(vs@) == vals
            &&& merged_value(r) == out
        }
}

/// Calls a merge function, and copies the value where it is borrowed.
pub fn call_merge<'a, MF, U>(merge: &MF, key: &[u8], vals: &[Cow<'a, [u8]>]) -> (r: Result<
    Vec<u8>,
    U,
>) where MF: for <'b>Fn(&[u8], &[Cow<'b, [u8]>]) -> Result<Cow<'b, [u8]>, U>
    requires
        total(*merge),
    ensures
        match r {
            Ok(val) => merges_to(*merge, key@, values(vals@), Ok::<_, U>(val@)),
            Err(e) => merges_to(*merge, key@, values(vals@), Err::<Seq<u8>, U>(e)),
        },
{
    match merge(key, vals) {
        Ok(Cow::Borrowed(val)) => Ok(slice_to_vec(val)),
        Ok(Cow::Owned(val)) => Ok(val),
        Err(e) => Err(e),
    }
}

/// A merge function makes something of values in a call with that key and exactly those
/// values, all of them and in their order, and answers just that.
pub proof fn merging_is_a_call<MF, U>(
    merge: MF,
    key: Seq<u8>,
    vals: Seq<Seq<u8>>,
    out: Result<Seq<u8>, U>,
) where MF: for <'a>Fn(&[u8], &[Cow<'a, [u8]>]) -> Result<Cow<'a, [u8]>, U>
    requires
        merges_to(merge, key, vals, out),
    ensures
        exists|k: &[u8], vs: &[Cow<'static, [u8]>], r: Result<Cow<'static, [u8]>, U>|
            {
                &&& #[trigger] call_ensures(merge, (k, vs), r)
                &&& k@ == key
                &&& vs@.len() == vals.len()
                &&& forall|i: int| 0 <= i < vals.len() ==> (#[trigger] vs@[i])@ == vals[i]
                &&& match r {
                    Ok(val) => out matches Ok(bytes) && val@ == bytes,
                    Err(e) => out matches Err(failure) && e == failure,
                }
            },
{
    let (k, vs, r) = choose|
        k: &[u8],
        vs: &[Cow<'static, [u8]>],
        r: Result<Cow<'static, [u8]>, U>,
    |
        {
            &&& #[trigger] call_ensures(merge, (k, vs), r)
            &&& merged_value(r) == out
            &&& values(vs@) == vals
            &&& k@ == key
        };
    assert(call_ensures(merge, (k, vs), r));
    assert(vs@.len() == values(vs@).len());
    assert forall|i: int| 0 <= i < vals.len() implies (#[trigger] vs@[i])@ == vals[i] by {
        assert(values(vs@)[i] == vs@[i]@);
    }
}

/// What comes of a call of a merge function is what it makes of the values that it was
/// given.
pub proof fn a_call_is_merging<MF, U>(
    merge: MF,
    k: &[u8],
    vs: &[Cow<'static, [u8]>],
    r: Result<Cow<'static, [u8]>, U>,
) where MF: for <'a>Fn(&[u8], &[Cow<'a, [u8]>]) -> Result<Cow<'a, [u8]>, U>
    requires
        call_ensures(merge, (k, vs), r),
    ensures
        ({
            let vals = Seq::new(vs@.len(), |i: int| vs@[i]@);
            match r {
                Ok(val) => merges_to(merge, k@, vals, Ok::<_, U>(val@)),
                Err(e) => merges_to(merge, k@, vals, Err::<Seq<u8>, U>(e)),
            }
        }),
{
    let vals = Seq::new(vs@.len(), |i: int| vs@[i]@);
    assert(values(vs@) =~= vals);
}

/// A merge function of which every call is known makes nothing else of values.
pub proof fn known_merge<MF, U>(
    merge: MF,
    f: spec_fn(Seq<u8>, Seq<Seq<u8>>) -> Seq<u8>,
    key: Seq<u8>,
    vals: Seq<Seq<u8>>,
    out: Seq<u8>,
) where MF: for <'a>Fn(&[u8], &[Cow<'a, [u8]>]) -> Result<Cow<'a, [u8]>, U>
    requires
        forall|k: &[u8], vs: &[Cow<'static, [u8]>], val: Cow<'static, [u8]>|
            #[trigger] call_ensures(merge, (k, vs), Ok::<_, U>(val)) ==> val@ == f(
                k@,
                Seq::new(vs@.len(), |i: int| vs@[i]@),
            ),
        merges_to(merge, key, vals, Ok::<_, U>(out)),
    ensures
        out == f(key, vals),
{
    merging_is_a_call(merge, key, vals, Ok::<_, U>(out));
    let (k, vs, r) = choose|
        k: &[u8],
        vs: &[Cow<'static, [u8]>],
        r: Result<Cow<'static, [u8]>, U>,
    |
        {
            &&& #[trigger] call_ensures(merge, (k, vs), r)
            &&& k@ == key
            &&& vs@.len() == vals.len()
            &&& forall|i: int| 0 <= i < vals.len() ==> (#[trigger] vs@[i])@ == vals[i]
            &&& match r {
                Ok(val) => Ok::<_, U>(out) matches Ok(bytes) && val@ == bytes,
                Err(e) => false,
            }
        };
    assert(call_ensures(merge, (k, vs), Ok::<Cow<'static, [u8]>, U>(r->Ok_0)));
    assert(Seq::new(vs@.len(), |i: int| vs@[i]@) =~= vals);
}

/// The error that a source ends in.
pub open spec fn end_error(end: StreamEnd) -> Error {
    match end {
        StreamEnd::Truncated => Error::Io(IoError::UnexpectedEof),
        StreamEnd::Corrupt => Error::Io(IoError::InvalidData),
        _ => Error::InvalidBlock,
    }
}

/// Whether every source has an entry at its head.
pub open spec fn all_headed(sources: Seq<Stream>) -> bool {
    forall|i: int| #![trigger sources[i]] 0 <= i < sources.len() ==> sources[i].entries.len() > 0
}

/// How many entries sources have, all together.
pub open spec fn entry_count(sources: Seq<Stream>) -> nat
    decreases sources.len(),
{
    if sources.len() == 0 {
        0
    } else {
        entry_count(sources.drop_last()) + sources.last().entries.len()
    }
}

/// The key at the head of a source.
pub open spec fn head_key(source: Stream) -> Seq<u8> {
    source.entries[0].0
}

/// Which of the first `n` sources is the first with the least key at its head.
pub open spec fn least(sources: Seq<Stream>, n: int) -> int
    decreases n,
{
    if n <= 1 {
        0
    } else {
        let i = least(sources, n - 1);
        if key_lt(head_key(sources[n - 1]), head_key(sources[i])) {
            n - 1
        } else {
            i
        }
    }
}

/// The least source is one of the sources.
pub proof fn least_in_range(sources: Seq<Stream>, n: int)
    requires
        1 <= n,
    ensures
        0 <= least(sources, n) < n,
    decreases n,
{
    if n > 1 {
        least_in_range(sources, n - 1);
    }
}

/// The sources after the head of one of them was taken, where that is not the last
/// thing that the source yields before it fails.
pub open spec fn taken(sources: Seq<Stream>, i: int) -> Seq<Stream> {
    let rest = sources[i].entries.drop_first();
    if rest.len() > 0 {
        sources.update(i, Stream { entries: rest, end: sources[i].end })
    } else {
        sources.remove(i)
    }
}

/// Replacing a source replaces its share of the entries.
pub proof fn entry_count_update(sources: Seq<Stream>, i: int, source: Stream)
    requires
        0 <= i < sources.len(),
    ensures
        entry_count(sources.update(i, source)) == entry_count(sources) - sources[i].entries.len()
            + source.entries.len(),
    decreases sources.len(),
{
    let updated = sources.update(i, source);
    if i == sources.len() - 1 {
        assert(updated.drop_last() =~= sources.drop_last());
    } else {
        entry_count_update(sources.drop_last(), i, source);
        assert(updated.drop_last() =~= sources.drop_last().update(i, source));
    }
}

/// Removing a source removes its entries.
pub proof fn entry_count_remove(sources: Seq<Stream>, i: int)
    requires
        0 <= i < sources.len(),
    ensures
        entry_count(sources.remove(i)) == entry_count(sources) - sources[i].entries.len(),
    decreases sources.len(),
{
    let removed = sources.remove(i);
    if i == sources.len() - 1 {
        assert(removed =~= sources.drop_last());
    } else {
        entry_count_remove(sources.drop_last(), i);
        assert(removed.drop_last() =~= sources.drop_last().remove(i));
    }
}

/// Taking a head leaves one entry less, and heads on all sources that remain.
pub proof fn taken_progress(sources: Seq<Stream>, i: int)
    requires
        all_headed(sources),
        0 <= i < sources.len(),
    ensures
        entry_count(taken(sources, i)) == entry_count(sources) - 1,
        all_headed(taken(sources, i)),
{
    let rest = sources[i].entries.drop_first();
    if rest.len() > 0 {
        entry_count_update(sources, i, Stream { entries: rest, end: sources[i].end });
    } else {
        entry_count_remove(sources, i);
        let removed = sources.remove(i);
        assert forall|j: int| #![trigger removed[j]]
            0 <= j < removed.len() implies removed[j].entries.len() > 0 by {
            assert(removed[j] == sources[if j < i { j } else { j + 1 }]);
        }
    }
}

/// What is gathered for one call of the merge function.
#[verifier::ext_equal]
pub struct Gathered {
    /// The key.
    pub key: Seq<u8>,
    /// The values of the key.
    pub vals: Seq<Seq<u8>>,
    /// The sources that are left.
    pub sources: Seq<Stream>,
    /// Whether there is anything to merge.
    pub pending: bool,
    /// The failure of a source after an entry of its own was gathered, if one
    /// failed; nothing is merged then.
    pub failure: Option<StreamEnd>,
}

/// Gathers the values of the least key, one source after the other, to those
/// already there. A key that is empty counts as none: it is given up, with its
/// values, for the next one.
pub open spec fn gather(
    sources: Seq<Stream>,
    key: Seq<u8>,
    vals: Seq<Seq<u8>>,
    pending: bool,
) -> Gathered
    decreases entry_count(sources),
    when all_headed(sources)
    via gather_decreases
{
    if sources.len() == 0 {
        Gathered { key, vals, sources, pending, failure: None }
    } else {
        let i = least(sources, sources.len() as int);
        let (head, val) = sources[i].entries[0];
        if key.len() != 0 && key != head {
            Gathered { key, vals, sources, pending, failure: None }
        } else {
            let before = if key.len() == 0 {
                Seq::empty()
            } else {
                vals
            };
            if sources[i].entries.len() == 1 && sources[i].end !is End {
                Gathered {
                    key: head,
                    vals: before.push(val),
                    sources,
                    pending: true,
                    failure: Some(sources[i].end),
                }
            } else {
                gather(taken(sources, i), head, before.push(val), pending || key.len() == 0)
            }
        }
    }
}

#[via_fn]
proof fn gather_decreases(
    sources: Seq<Stream>,
    key: Seq<u8>,
    vals: Seq<Seq<u8>>,
    pending: bool,
) {
    if sources.len() > 0 {
        let i = least(sources, sources.len() as int);
        least_in_range(sources, sources.len() as int);
        taken_progress(sources, i);
    }
}

/// Gathers afresh, with nothing left over from before.
pub open spec fn gathered(sources: Seq<Stream>) -> Gathered
    recommends
        all_headed(sources),
{
    gather(sources, Seq::empty(), Seq::empty(), false)
}

/// Gathering leaves heads on all sources that remain, and takes an entry at least
/// where there is one.
pub proof fn gather_progress(
    sources: Seq<Stream>,
    key: Seq<u8>,
    vals: Seq<Seq<u8>>,
    pending: bool,
)
    requires
        all_headed(sources),
    ensures
        all_headed(gather(sources, key, vals, pending).sources),
        entry_count(gather(sources, key, vals, pending).sources) <= entry_count(sources),
        ({
            let g = gather(sources, key, vals, pending);
            sources.len() > 0 && key.len() == 0 && g.failure is None ==> g.pending && entry_count(
                g.sources,
            ) < entry_count(sources)
        }),
        sources.len() == 0 ==> gather(sources, key, vals, pending) == (Gathered {
            key,
            vals,
            sources,
            pending,
            failure: None,
        }),
        pending ==> gather(sources, key, vals, pending).pending,
    decreases entry_count(sources),
{
    if sources.len() > 0 {
        let i = least(sources, sources.len() as int);
        least_in_range(sources, sources.len() as int);
        taken_progress(sources, i);
        let (head, val) = sources[i].entries[0];
        let before = if key.len() == 0 {
            Seq::empty()
        } else {
            vals
        };
        gather_progress(taken(sources, i), head, before.push(val), pending || key.len() == 0);
    }
}

/// The sources that are left after `n` rounds of gathering.
pub open spec fn after_rounds(sources: Seq<Stream>, n: nat) -> Seq<Stream>
    decreases n,
{
    if n == 0 {
        sources
    } else {
        gathered(after_rounds(sources, (n - 1) as nat)).sources
    }
}

/// Whether an entry is what a merge function makes of one round of gathering.
pub open spec fn round_yields<MF, U>(
    merge: MF,
    sources: Seq<Stream>,
    entry: KeyVal,
) -> bool where MF: for <'a>Fn(&[u8], &[Cow<'a, [u8]>]) -> Result<Cow<'a, [u8]>, U> {
    let g = gathered(sources);
    &&& g.failure is None
    &&& g.pending
    &&& entry.0 == g.key
    &&& merges_to(merge, g.key, g.vals, Ok::<_, U>(entry.1))
}

/// Whether entries are what a merge function makes of one round of gathering after
/// the other.
pub open spec fn rounds_yield<MF, U>(
    merge: MF,
    sources: Seq<Stream>,
    out: Seq<KeyVal>,
) -> bool where MF: for <'a>Fn(&[u8], &[Cow<'a, [u8]>]) -> Result<Cow<'a, [u8]>, U> {
    forall|j: int| #![trigger out[j]]
        0 <= j < out.len() ==> round_yields(merge, after_rounds(sources, j as nat), out[j])
}

/// Whether entries are all that merging the sources yields.
pub open spec fn merges_into<MF, U>(
    merge: MF,
    sources: Seq<Stream>,
    out: Seq<KeyVal>,
) -> bool where MF: for <'a>Fn(&[u8], &[Cow<'a, [u8]>]) -> Result<Cow<'a, [u8]>, U> {
    &&& rounds_yield(merge, sources, out)
    &&& after_rounds(sources, out.len()).len() == 0
}

/// Whether `after` is what is left of sources when reading on in the least of them
/// failed: an empty entry stands at the head of that one, and the others are as they
/// were.
pub open spec fn left_broken(before: Seq<Stream>, after: Seq<Stream>) -> bool {
    let i = least(before, before.len() as int);
    &&& 0 <= i < before.len()
    &&& after == before.update(i, after[i])
    &&& after[i].entries.len() > 0
    &&& after[i].entries[0] == (Seq::<u8>::empty(), Seq::<u8>::empty())
}

/// Whether `left` is what is left of sources at some time while they are gathered
/// from: gathering on from there ends as gathering from the start does.
pub open spec fn partly_gathered(
    sources: Seq<Stream>,
    pending: bool,
    left: Seq<Stream>,
) -> bool {
    exists|key: Seq<u8>, vals: Seq<Seq<u8>>, pending_then: bool|
        #[trigger] gather(left, key, vals, pending_then) == gather(
            sources,
            Seq::empty(),
            Seq::empty(),
            pending,
        )
}

/// Whether `after` is what is left of sources when a source itself failed while they
/// were gathered from.
pub open spec fn left_by_fault(
    sources: Seq<Stream>,
    pending: bool,
    after: Seq<Stream>,
) -> bool {
    exists|left: Seq<Stream>| #[trigger]
        left_broken(left, after) && partly_gathered(sources, pending, left)
}

/// What a merge that does not fault answers when it is asked for its next entry,
/// and what becomes of it.
pub open spec fn merge_relation<MF, U>(
    merge: MF,
    sources: Seq<Stream>,
    pending: bool,
    r: Result<Option<KeyVal>, Error<U>>,
    sources_after: Seq<Stream>,
    pending_after: bool,
) -> bool where MF: for <'a>Fn(&[u8], &[Cow<'a, [u8]>]) -> Result<Cow<'a, [u8]>, U> {
    let g = gather(sources, Seq::empty(), Seq::empty(), pending);
    match g.failure {
        Some(end) => {
            &&& r matches Err(e) && e == converted::<U>(end_error(end))
            &&& left_broken(g.sources, sources_after)
            &&& pending_after
        },
        None => {
            &&& sources_after == g.sources
            &&& match r {
                Ok(Some((key, val))) => {
                    &&& g.pending
                    &&& key == g.key
                    &&& merges_to(merge, g.key, g.vals, Ok::<_, U>(val))
                    &&& !pending_after
                },
                Ok(None) => !g.pending && !pending_after,
                Err(Error::Merge(e)) => {
                    &&& g.pending
                    &&& merges_to(merge, g.key, g.vals, Err::<Seq<u8>, U>(e))
                    &&& pending_after
                },
                Err(_) => false,
            }
        },
    }
}

/// A merge that has come to the end stays there.
pub proof fn merge_end_is_final<MF, U>(
    merge: MF,
    sources: Seq<Stream>,
    pending: bool,
    sources_after: Seq<Stream>,
    pending_after: bool,
    r: Result<Option<KeyVal>, Error<U>>,
    sources_later: Seq<Stream>,
    pending_later: bool,
) where MF: for <'a>Fn(&[u8], &[Cow<'a, [u8]>]) -> Result<Cow<'a, [u8]>, U>
    requires
        all_headed(sources),
        merge_relation(
            merge,
            sources,
            pending,
            Ok::<_, Error<U>>(None),
            sources_after,
            pending_after,
        ),
        merge_relation(merge, sources_after, pending_after, r, sources_later, pending_later),
    ensures
        r matches Ok(None),
        sources_later == sources_after,
        !pending_later,
{
    gather_progress(sources, Seq::empty(), Seq::empty(), pending);
    gather_progress(sources_after, Seq::empty(), Seq::empty(), pending_after);
}

/// The sources of a merge: those of the given ones that have an entry. Where one
/// fails before its first entry, how the first such one ends.
pub open spec fn opened_sources(streams: Seq<Stream>) -> Result<Seq<Stream>, StreamEnd>
    decreases streams.len(),
{
    if streams.len() == 0 {
        Ok(Seq::empty())
    } else {
        match opened_sources(streams.drop_last()) {
            Err(end) => Err(end),
            Ok(sources) => {
                let last = streams.last();
                if last.entries.len() > 0 {
                    Ok(sources.push(last))
                } else if last.end is End {
                    Ok(sources)
                } else {
                    Err(last.end)
                }
            },
        }
    }
}

/// A source without entries changes nothing of a merge.
pub proof fn empty_source_changes_nothing(streams: Seq<Stream>, i: int)
    requires
        0 <= i < streams.len(),
        streams[i].entries.len() == 0,
        streams[i].end is End,
    ensures
        opened_sources(streams.remove(i)) == opened_sources(streams),
    decreases streams.len(),
{
    let without = streams.remove(i);
    if i == streams.len() - 1 {
        assert(without =~= streams.drop_last());
    } else {
        empty_source_changes_nothing(streams.drop_last(), i);
        assert(without.drop_last() =~= streams.drop_last().remove(i));
        assert(without.last() == streams.last());
    }
}

/// The error that a source ends in first is that of all of them.
pub proof fn opened_sources_prefix(streams: Seq<Stream>, n: int)
    requires
        0 <= n <= streams.len(),
    ensures
        opened_sources(streams.take(n)) is Err ==> opened_sources(streams) == opened_sources(
            streams.take(n),
        ),
    decreases streams.len(),
{
    if n < streams.len() {
        opened_sources_prefix(streams.drop_last(), n);
        assert(streams.drop_last().take(n) =~= streams.take(n));
    } else {
        assert(streams.take(n) =~= streams);
    }
}

/// Where no source fails before its first entry, the sources of a merge are those that
/// have an entry, in their order.
pub proof fn sources_with_entries(streams: Seq<Stream>)
    requires
        forall|i: int| #![trigger streams[i]]
            0 <= i < streams.len() ==> streams[i].entries.len() > 0 || streams[i].end is End,
    ensures
        opened_sources(streams) == Ok::<_, StreamEnd>(
            streams.filter(|source: Stream| source.entries.len() > 0),
        ),
    decreases streams.len(),
{
    reveal(Seq::filter);
    if streams.len() > 0 {
        let init = streams.drop_last();
        assert forall|i: int| #![trigger init[i]] 0 <= i < init.len() implies init[i].entries.len()
            > 0 || init[i].end is End by {
            assert(init[i] == streams[i]);
        }
        sources_with_entries(init);
        assert(streams[streams.len() - 1] == streams.last());
    } else {
        assert(streams =~= Seq::empty());
    }
}

/// Where sources fail before their first entry, a merge of them fails as the first such
/// one does.
pub proof fn first_source_that_fails(streams: Seq<Stream>, n: int)
    requires
        0 <= n < streams.len(),
        streams[n].entries.len() == 0,
        streams[n].end !is End,
        forall|i: int| #![trigger streams[i]]
            0 <= i < n ==> streams[i].entries.len() > 0 || streams[i].end is End,
    ensures
        opened_sources(streams) == Err::<Seq<Stream>, _>(streams[n].end),
    decreases streams.len(),
{
    let init = streams.drop_last();
    assert forall|i: int| #![trigger init[i]] 0 <= i < n && i < init.len() implies
        init[i].entries.len() > 0 || init[i].end is End by {
        assert(init[i] == streams[i]);
    }
    if n < streams.len() - 1 {
        assert(init[n] == streams[n]);
        first_source_that_fails(init, n);
    } else {
        sources_with_entries(init);
    }
}

/// The errors of sources: bytes that run out, that do not decompress, and that spell no
/// entry.
pub proof fn errors_of_sources()
    ensures
        end_error(StreamEnd::Truncated) matches Error::Io(IoError::UnexpectedEof),
        end_error(StreamEnd::Corrupt) matches Error::Io(IoError::InvalidData),
        end_error(StreamEnd::Malformed) matches Error::InvalidBlock,
{
}

/// Where gathering fails, it fails as one of the sources ends; and it does not where all
/// of them end without failing.
proof fn gather_fails_as_a_source(
    sources: Seq<Stream>,
    key: Seq<u8>,
    vals: Seq<Seq<u8>>,
    pending: bool,
)
    requires
        all_headed(sources),
    ensures
        gather(sources, key, vals, pending).failure matches Some(end) ==> end !is End && exists|
            i: int,
        |
            0 <= i < sources.len() && (#[trigger] sources[i]).end == end,
    decreases entry_count(sources),
{
    if sources.len() > 0 {
        let n = least(sources, sources.len() as int);
        least_in_range(sources, sources.len() as int);
        let (head, val) = sources[n].entries[0];
        if !(key.len() != 0 && key != head) {
            if !(sources[n].entries.len() == 1 && sources[n].end !is End) {
                let before = if key.len() == 0 {
                    Seq::empty()
                } else {
                    vals
                };
                let rest = taken(sources, n);
                taken_progress(sources, n);
                gather_fails_as_a_source(rest, head, before.push(val), pending || key.len() == 0);
                let g = gather(rest, head, before.push(val), pending || key.len() == 0);
                if let Some(end) = g.failure {
                    let i = choose|i: int| 0 <= i < rest.len() && (#[trigger] rest[i]).end == end;
                    if sources[n].entries.len() > 1 || i < n {
                        assert(sources[i].end == end);
                    } else {
                        assert(sources[i + 1].end == end);
                    }
                }
            }
        }
    }
}

/// A merge answers with an entry, with none or with an error of the merge function, but
/// where one of its sources ends in an error: then it can be that error.
pub proof fn error_of_a_source<MF, U>(
    merge: MF,
    sources: Seq<Stream>,
    pending: bool,
    e: Error<U>,
    sources_after: Seq<Stream>,
    pending_after: bool,
) -> (i: int) where MF: for <'a>Fn(&[u8], &[Cow<'a, [u8]>]) -> Result<Cow<'a, [u8]>, U>
    requires
        all_headed(sources),
        e !is Merge,
        merge_relation(
            merge,
            sources,
            pending,
            Err::<Option<KeyVal>, _>(e),
            sources_after,
            pending_after,
        ),
    ensures
        0 <= i < sources.len(),
        match sources[i].end {
            StreamEnd::End => false,
            StreamEnd::Truncated => e matches Error::Io(IoError::UnexpectedEof),
            StreamEnd::Corrupt => e matches Error::Io(IoError::InvalidData),
            StreamEnd::Malformed => e matches Error::InvalidBlock,
        },
{
    gather_fails_as_a_source(sources, Seq::empty(), Seq::empty(), pending);
    let g = gather(sources, Seq::empty(), Seq::empty(), pending);
    choose|i: int| 0 <= i < sources.len() && (#[trigger] sources[i]).end == g.failure->0
}

/// When a source fails, an empty entry stands for it, and the others are as they were.
pub proof fn other_sources_are_kept(before: Seq<Stream>, after: Seq<Stream>) -> (i: int)
    requires
        left_broken(before, after),
    ensures
        0 <= i < before.len(),
        after.len() == before.len(),
        forall|j: int| #![trigger after[j]]
            0 <= j < before.len() && j != i ==> after[j] == before[j],
        after[i].entries.len() > 0,
        after[i].entries[0].0.len() == 0,
        after[i].entries[0].1.len() == 0,
{
    least(before, before.len() as int)
}

/// Whether an earlier merge failed makes no difference to what is gathered next, as long as
/// there is an entry left.
pub proof fn failures_leave_nothing_behind(sources: Seq<Stream>)
    requires
        all_headed(sources),
        sources.len() > 0,
    ensures
        gather(sources, Seq::empty(), Seq::empty(), true) == gathered(sources),
{
    least_in_range(sources, sources.len() as int);
}

} // verus!
