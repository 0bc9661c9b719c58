//! What merging and sorting come to, for all sources and all entries.
//!
//! These laws speak of the bytes of keys, of the values of a key in the order of the
//! entries, and of single calls of the merge function. They say what the relations of the
//! other modules amount to.

use crate::compression::CompressionType;
use crate::error::{Error, IoError};
use crate::format::{stream, KeyVal, Stream, StreamEnd};
use crate::io::Read;
use crate::made::{
    begins_to_sort_out, entry_stands_for, has_other_key, is_part, kept_by_merging, key_stands_for,
    made_of, sorts_out,
};
use crate::merge::{
    after_rounds, gathered, merge_relation, merges_into, merges_to, merging_is_a_call,
    opened_sources, round_yields, rounds_yield, sources_with_entries,
};
use crate::merger::{
    accepts_all, merge_write_relation, stops, streams, writes_out, writes_some,
};
use crate::order::{key_le, key_le_antisymmetric, key_lt};
use crate::reader::Reader;
use crate::runs::{
    after_rounds_proper, ascending, gather_sorted, merge_of_sorted, merged_key, proper,
    rounds_sorted, rounds_values, vals_of, vals_of_absent, vals_of_filtered, vals_of_present,
    vals_of_sorted, values_at, values_at_present,
};
use crate::seqs::{concat, concat_flattens, concat_of_concats, concat_one};
use crate::sorter::{
    chunks_merge_as, dumps_as, run_sources, run_streams, runs_write_relation, sort_stops,
    sort_write_relation, sorts_into, ChunkCreation,
};
use crate::writer::{inserted_all, inserted_all_entries, WriterView};
use std::borrow::Cow;
use vstd::prelude::*;

verus! {

/// A key with values stands in one of the entries.
proof fn somewhere(entries: Seq<KeyVal>, key: Seq<u8>) -> (i: int)
    requires
        vals_of(entries, key).len() > 0,
    ensures
        0 <= i < entries.len(),
        entries[i].0 == key,
{
    if forall|i: int| 0 <= i < entries.len() ==> (#[trigger] entries[i]).0 != key {
        vals_of_absent(entries, key);
    }
    choose|i: int| 0 <= i < entries.len() && (#[trigger] entries[i]).0 == key
}

/// A key with values in sources stands in one of their entries.
proof fn somewhere_in(sources: Seq<Stream>, key: Seq<u8>) -> (at: (int, int))
    requires
        values_at(sources, key).len() > 0,
    ensures
        0 <= at.0 < sources.len(),
        0 <= at.1 < sources[at.0].entries.len(),
        sources[at.0].entries[at.1].0 == key,
    decreases sources.len(),
{
    let f = |source: Stream| vals_of(source.entries, key);
    assert(sources.map_values(f).drop_last() =~= sources.drop_last().map_values(f));
    if vals_of(sources.last().entries, key).len() > 0 {
        (sources.len() - 1, somewhere(sources.last().entries, key))
    } else {
        somewhere_in(sources.drop_last(), key)
    }
}

/// What merging sorted sources yields has keys that increase strictly.
pub proof fn merge_is_sorted<MF, U>(
    merge: MF,
    sources: Seq<Stream>,
    out: Seq<KeyVal>,
    a: int,
    b: int,
) where MF: for <'a>Fn(&[u8], &[Cow<'a, [u8]>]) -> Result<Cow<'a, [u8]>, U>
    requires
        forall|i: int| #![trigger sources[i]]
            0 <= i < sources.len() ==> sources[i].entries.len() > 0 && sources[i].end is End,
        forall|i: int, j: int, k: int| #![trigger sources[i].entries[j], sources[i].entries[k]]
            0 <= i < sources.len() && 0 <= j < k < sources[i].entries.len() ==> key_le(
                sources[i].entries[j].0,
                sources[i].entries[k].0,
            ),
        merges_into(merge, sources, out),
        0 <= a < b < out.len(),
    ensures
        key_lt(out[a].0, out[b].0),
{
    assert(proper(sources));
    merge_of_sorted(merge, sources, out);
}

/// The value that merging sorted sources yields of a key is what the merge function makes,
/// in one call, of all values of that key in all sources, one source after the other.
pub proof fn merge_takes_all_values<MF, U>(
    merge: MF,
    sources: Seq<Stream>,
    out: Seq<KeyVal>,
    j: int,
) where MF: for <'a>Fn(&[u8], &[Cow<'a, [u8]>]) -> Result<Cow<'a, [u8]>, U>
    requires
        forall|i: int| #![trigger sources[i]]
            0 <= i < sources.len() ==> sources[i].entries.len() > 0 && sources[i].end is End,
        forall|i: int, j: int, k: int| #![trigger sources[i].entries[j], sources[i].entries[k]]
            0 <= i < sources.len() && 0 <= j < k < sources[i].entries.len() ==> key_le(
                sources[i].entries[j].0,
                sources[i].entries[k].0,
            ),
        merges_into(merge, sources, out),
        0 <= j < out.len(),
        out[j].0.len() > 0,
    ensures
        merges_to(
            merge,
            out[j].0,
            sources.map_values(|source: Stream| vals_of(source.entries, out[j].0)).flatten(),
            Ok::<_, U>(out[j].1),
        ),
{
    assert(proper(sources));
    merge_of_sorted(merge, sources, out);
    let key = out[j].0;
    vals_of_sorted(out, j);
    assert(merged_key(merge, key, values_at(sources, key), vals_of(out, key)));
    concat_flattens(sources.map_values(|source: Stream| vals_of(source.entries, key)));
}

/// Every key of the sources that is not empty is in what merging them yields.
pub proof fn merge_leaves_no_key_out<MF, U>(
    merge: MF,
    sources: Seq<Stream>,
    out: Seq<KeyVal>,
    n: int,
    m: int,
) -> (j: int) where MF: for <'a>Fn(&[u8], &[Cow<'a, [u8]>]) -> Result<Cow<'a, [u8]>, U>
    requires
        forall|i: int| #![trigger sources[i]]
            0 <= i < sources.len() ==> sources[i].entries.len() > 0 && sources[i].end is End,
        forall|i: int, j: int, k: int| #![trigger sources[i].entries[j], sources[i].entries[k]]
            0 <= i < sources.len() && 0 <= j < k < sources[i].entries.len() ==> key_le(
                sources[i].entries[j].0,
                sources[i].entries[k].0,
            ),
        merges_into(merge, sources, out),
        0 <= n < sources.len(),
        0 <= m < sources[n].entries.len(),
        sources[n].entries[m].0.len() > 0,
    ensures
        0 <= j < out.len(),
        out[j].0 == sources[n].entries[m].0,
{
    assert(proper(sources));
    merge_of_sorted(merge, sources, out);
    let key = sources[n].entries[m].0;
    values_at_present(sources, n, m);
    assert(merged_key(merge, key, values_at(sources, key), vals_of(out, key)));
    somewhere(out, key)
}

/// Every key that merging sorted sources yields is a key of one of them.
pub proof fn merge_makes_no_key_up<MF, U>(
    merge: MF,
    sources: Seq<Stream>,
    out: Seq<KeyVal>,
    j: int,
) -> (at: (int, int)) where MF: for <'a>Fn(&[u8], &[Cow<'a, [u8]>]) -> Result<Cow<'a, [u8]>, U>
    requires
        forall|i: int| #![trigger sources[i]]
            0 <= i < sources.len() ==> sources[i].entries.len() > 0 && sources[i].end is End,
        forall|i: int, j: int, k: int| #![trigger sources[i].entries[j], sources[i].entries[k]]
            0 <= i < sources.len() && 0 <= j < k < sources[i].entries.len() ==> key_le(
                sources[i].entries[j].0,
                sources[i].entries[k].0,
            ),
        merges_into(merge, sources, out),
        0 <= j < out.len(),
    ensures
        0 <= at.0 < sources.len(),
        0 <= at.1 < sources[at.0].entries.len(),
        sources[at.0].entries[at.1].0 == out[j].0,
{
    assert(proper(sources));
    merge_of_sorted(merge, sources, out);
    let key = out[j].0;
    vals_of_present(out, j);
    if key.len() > 0 {
        assert(merged_key(merge, key, values_at(sources, key), vals_of(out, key)));
    } else {
        assert(key =~= Seq::empty());
    }
    somewhere_in(sources, key)
}

/// Where the empty key comes of merging sorted sources, they have no other; its value is
/// made of the last of its values alone.
pub proof fn merge_of_empty_keys<MF, U>(
    merge: MF,
    sources: Seq<Stream>,
    out: Seq<KeyVal>,
    j: int,
) where MF: for <'a>Fn(&[u8], &[Cow<'a, [u8]>]) -> Result<Cow<'a, [u8]>, U>
    requires
        forall|i: int| #![trigger sources[i]]
            0 <= i < sources.len() ==> sources[i].entries.len() > 0 && sources[i].end is End,
        forall|i: int, j: int, k: int| #![trigger sources[i].entries[j], sources[i].entries[k]]
            0 <= i < sources.len() && 0 <= j < k < sources[i].entries.len() ==> key_le(
                sources[i].entries[j].0,
                sources[i].entries[k].0,
            ),
        merges_into(merge, sources, out),
        0 <= j < out.len(),
        out[j].0.len() == 0,
    ensures
        out.len() == 1,
        forall|n: int, m: int| #![trigger sources[n].entries[m]]
            0 <= n < sources.len() && 0 <= m < sources[n].entries.len()
                ==> sources[n].entries[m].0.len() == 0,
        merges_to(
            merge,
            Seq::empty(),
            seq![sources.last().entries.last().1],
            Ok::<_, U>(out[j].1),
        ),
{
    assert(proper(sources));
    merge_of_sorted(merge, sources, out);
    let none = Seq::<u8>::empty();
    assert(out[j].0 =~= none);
    vals_of_sorted(out, j);
    assert forall|n: int, m: int| #![trigger sources[n].entries[m]]
        0 <= n < sources.len() && 0 <= m < sources[n].entries.len() implies
        sources[n].entries[m].0.len() == 0 by {
        values_at_present(sources, n, m);
    }
    if out.len() > 1 {
        let k = if j == 0 {
            1
        } else {
            0int
        };
        let at = merge_makes_no_key_up(merge, sources, out, k);
        assert(sources[at.0].entries[at.1].0.len() == 0);
        assert(out[k].0 =~= none);
        if j < k {
            assert(key_lt(out[j].0, out[k].0));
        } else {
            assert(key_lt(out[k].0, out[j].0));
        }
    }
    let vals = values_at(sources, none);
    let at = merge_makes_no_key_up(merge, sources, out, j);
    let f = |source: Stream| vals_of(source.entries, none);
    let last = sources.last();
    assert(last == sources[sources.len() - 1]);
    assert(sources.map_values(f).last() == vals_of(last.entries, none));
    assert(last.entries[last.entries.len() - 1].0.len() == 0);
    assert(last.entries.last().0 =~= none);
    assert(vals_of(last.entries, none).last() == last.entries.last().1);
    assert(vals.last() == last.entries.last().1);
}

/// Asking for entries one after the other, until there are none, yields all that merging
/// the sources yields.
pub proof fn asking_on_merges_all<MF, U>(
    merge: MF,
    states: Seq<Seq<Stream>>,
    out: Seq<KeyVal>,
) where MF: for <'a>Fn(&[u8], &[Cow<'a, [u8]>]) -> Result<Cow<'a, [u8]>, U>
    requires
        states.len() == out.len() + 2,
        forall|i: int| #![trigger out[i]]
            0 <= i < out.len() ==> merge_relation(
                merge,
                states[i],
                false,
                Ok::<_, Error<U>>(Some(out[i])),
                states[i + 1],
                false,
            ),
        merge_relation(
            merge,
            states[out.len() as int],
            false,
            Ok::<_, Error<U>>(None),
            states.last(),
            false,
        ),
        forall|i: int| #![trigger states[0][i]]
            0 <= i < states[0].len() ==> states[0][i].entries.len() > 0 && states[0][i].end is End,
        forall|i: int, j: int, k: int|
            #![trigger states[0][i].entries[j], states[0][i].entries[k]]
            0 <= i < states[0].len() && 0 <= j < k < states[0][i].entries.len() ==> key_le(
                states[0][i].entries[j].0,
                states[0][i].entries[k].0,
            ),
    ensures
        merges_into(merge, states[0], out),
{
    asking_on(merge, states, out, out.len());
    let end = states[out.len() as int];
    assert(proper(states[0]));
    after_rounds_proper(states[0], out.len());
    assert(out.take(out.len() as int) =~= out);
    gather_sorted(end, Seq::empty(), false);
}

proof fn asking_on<MF, U>(
    merge: MF,
    states: Seq<Seq<Stream>>,
    out: Seq<KeyVal>,
    n: nat,
) where MF: for <'a>Fn(&[u8], &[Cow<'a, [u8]>]) -> Result<Cow<'a, [u8]>, U>
    requires
        n <= out.len(),
        states.len() == out.len() + 2,
        forall|i: int| #![trigger out[i]]
            0 <= i < out.len() ==> merge_relation(
                merge,
                states[i],
                false,
                Ok::<_, Error<U>>(Some(out[i])),
                states[i + 1],
                false,
            ),
    ensures
        after_rounds(states[0], n) == states[n as int],
        rounds_yield(merge, states[0], out.take(n as int)),
    decreases n,
{
    if n > 0 {
        let i = (n - 1) as nat;
        asking_on(merge, states, out, i);
        assert(merge_relation(
            merge,
            states[i as int],
            false,
            Ok::<_, Error<U>>(Some(out[i as int])),
            states[n as int],
            false,
        ));
        let taken = out.take(n as int);
        assert forall|j: int| #![trigger taken[j]] 0 <= j < taken.len() implies round_yields(
            merge,
            after_rounds(states[0], j as nat),
            taken[j],
        ) by {
            if j < i {
                assert(out.take(i as int)[j] == taken[j]);
            }
        }
    }
    if n == out.len() {
        assert(out.take(n as int) =~= out);
    }
}

/// The next entry of a merge of sorted sources has the least key that is left in them and
/// is not empty. All its values are merged, in one call, and nothing of the other keys is
/// taken.
pub proof fn next_is_the_least_key<MF, U>(
    merge: MF,
    sources: Seq<Stream>,
    key: Seq<u8>,
    val: Seq<u8>,
    after: Seq<Stream>,
    pending_after: bool,
) where MF: for <'a>Fn(&[u8], &[Cow<'a, [u8]>]) -> Result<Cow<'a, [u8]>, U>
    requires
        forall|i: int| #![trigger sources[i]]
            0 <= i < sources.len() ==> sources[i].entries.len() > 0 && sources[i].end is End,
        forall|i: int, j: int, k: int| #![trigger sources[i].entries[j], sources[i].entries[k]]
            0 <= i < sources.len() && 0 <= j < k < sources[i].entries.len() ==> key_le(
                sources[i].entries[j].0,
                sources[i].entries[k].0,
            ),
        merge_relation(
            merge,
            sources,
            false,
            Ok::<_, Error<U>>(Some((key, val))),
            after,
            pending_after,
        ),
        key.len() > 0,
    ensures
        forall|n: int, m: int| #![trigger sources[n].entries[m]]
            0 <= n < sources.len() && 0 <= m < sources[n].entries.len()
                && sources[n].entries[m].0.len() > 0 ==> key_le(key, sources[n].entries[m].0),
        merges_to(
            merge,
            key,
            sources.map_values(|source: Stream| vals_of(source.entries, key)).flatten(),
            Ok::<_, U>(val),
        ),
        forall|n: int, m: int| #![trigger after[n].entries[m]]
            0 <= n < after.len() && 0 <= m < after[n].entries.len() ==> key_lt(
                key,
                after[n].entries[m].0,
            ),
        forall|k: Seq<u8>| #![trigger values_at(after, k)]
            k.len() > 0 && k != key ==> values_at(after, k) == values_at(sources, k),
{
    assert(proper(sources));
    gather_sorted(sources, Seq::empty(), false);
    concat_flattens(sources.map_values(|source: Stream| vals_of(source.entries, key)));
    assert forall|n: int, m: int| #![trigger sources[n].entries[m]]
        0 <= n < sources.len() && 0 <= m < sources[n].entries.len()
            && sources[n].entries[m].0.len() > 0 implies key_le(key, sources[n].entries[m].0) by {
        values_at_present(sources, n, m);
    }
}

/// A merge of sorted sources has a next entry, or the merge function fails, as long as
/// there is an entry left in them; and the failure is that of the call with all values of
/// a key.
pub proof fn merge_ends_with_its_sources<MF, U>(
    merge: MF,
    sources: Seq<Stream>,
    r: Result<Option<KeyVal>, Error<U>>,
    after: Seq<Stream>,
    pending_after: bool,
) where MF: for <'a>Fn(&[u8], &[Cow<'a, [u8]>]) -> Result<Cow<'a, [u8]>, U>
    requires
        forall|i: int| #![trigger sources[i]]
            0 <= i < sources.len() ==> sources[i].entries.len() > 0 && sources[i].end is End,
        forall|i: int, j: int, k: int| #![trigger sources[i].entries[j], sources[i].entries[k]]
            0 <= i < sources.len() && 0 <= j < k < sources[i].entries.len() ==> key_le(
                sources[i].entries[j].0,
                sources[i].entries[k].0,
            ),
        merge_relation(merge, sources, false, r, after, pending_after),
    ensures
        r matches Ok(None) <==> sources.len() == 0,
        r matches Err(e) ==> (e matches Error::Merge(failure) && exists|
            key: Seq<u8>,
            vals: Seq<Seq<u8>>,
        |
            {
                &&& #[trigger] merges_to(merge, key, vals, Err::<Seq<u8>, U>(failure))
                &&& key.len() > 0 ==> vals == values_at(sources, key)
                &&& key.len() == 0 ==> vals == seq![sources.last().entries.last().1]
            }),
{
    assert(proper(sources));
    gather_sorted(sources, Seq::empty(), false);
    let g = gathered(sources);
    if r is Err {
        if g.key.len() == 0 {
            let none = Seq::<u8>::empty();
            assert(g.key =~= none);
            let f = |source: Stream| vals_of(source.entries, none);
            let last = sources.last();
            assert(last == sources[sources.len() - 1]);
            assert(sources.map_values(f).last() == vals_of(last.entries, none));
            values_at_present(sources, sources.len() - 1, last.entries.len() - 1);
            assert(last.entries[last.entries.len() - 1].0.len() == 0);
            assert(last.entries.last().0 =~= none);
            assert(vals_of(last.entries, none).last() == last.entries.last().1);
            assert(g.vals =~= seq![sources.last().entries.last().1]);
        }
        assert(merges_to(merge, g.key, g.vals, Err::<Seq<u8>, U>(r->Err_0->Merge_0)));
    }
}

/// What entries are dumped as has keys that increase strictly: the keys of the entries,
/// each once. The value of a key is what the merge function makes, in one call, of all
/// values that it has, in the order in which they were inserted.
pub proof fn dump_merges_all_values<MF, U>(
    merge: MF,
    compression: CompressionType,
    entries: Seq<KeyVal>,
    run: Seq<KeyVal>,
) where MF: for <'a>Fn(&[u8], &[Cow<'a, [u8]>]) -> Result<Cow<'a, [u8]>, U>
    requires
        dumps_as(merge, compression, entries, run),
    ensures
        forall|a: int, b: int| #![trigger run[a], run[b]]
            0 <= a < b < run.len() ==> key_lt(run[a].0, run[b].0),
        forall|j: int| #![trigger run[j]]
            0 <= j < run.len() ==> merges_to(
                merge,
                run[j].0,
                vals_of(entries, run[j].0),
                Ok::<_, U>(run[j].1),
            ),
        forall|i: int| #![trigger entries[i]]
            0 <= i < entries.len() ==> exists|j: int|
                0 <= j < run.len() && (#[trigger] run[j]).0 == entries[i].0,
        forall|j: int| #![trigger run[j]]
            0 <= j < run.len() ==> exists|i: int|
                0 <= i < entries.len() && (#[trigger] entries[i]).0 == run[j].0,
{
    assert forall|j: int| #![trigger run[j]] 0 <= j < run.len() implies merges_to(
        merge,
        run[j].0,
        vals_of(entries, run[j].0),
        Ok::<_, U>(run[j].1),
    ) && exists|i: int| 0 <= i < entries.len() && (#[trigger] entries[i]).0 == run[j].0 by {
        let key = run[j].0;
        vals_of_sorted(run, j);
        assert(merged_key(merge, key, vals_of(entries, key), vals_of(run, key)));
        let i = somewhere(entries, key);
        assert(entries[i].0 == key);
    }
    assert forall|i: int| #![trigger entries[i]] 0 <= i < entries.len() implies exists|j: int|
        0 <= j < run.len() && (#[trigger] run[j]).0 == entries[i].0 by {
        let key = entries[i].0;
        vals_of_present(entries, i);
        assert(merged_key(merge, key, vals_of(entries, key), vals_of(run, key)));
        let j = somewhere(run, key);
        assert(run[j].0 == key);
    }
}

/// The chunks that are merged are those that hold an entry, in their order.
pub proof fn chunks_with_entries(runs: Seq<Seq<KeyVal>>)
    ensures
        run_sources(runs) == runs.map_values(
            |run: Seq<KeyVal>| Stream { entries: run, end: StreamEnd::End },
        ).filter(|source: Stream| source.entries.len() > 0),
{
    sources_with_entries(run_streams(runs));
}

/// What is sorted out of entries has keys that increase strictly. Every key that is not
/// empty and was inserted is one of them, and every one of them was inserted. The empty
/// key is one of them only where no other was inserted.
pub proof fn sorted_keys<MF, U>(
    merge: MF,
    out: Seq<KeyVal>,
    inserted: Seq<KeyVal>,
) where MF: for <'a>Fn(&[u8], &[Cow<'a, [u8]>]) -> Result<Cow<'a, [u8]>, U>
    requires
        sorts_out(merge, out, inserted),
    ensures
        forall|a: int, b: int| #![trigger out[a], out[b]]
            0 <= a < b < out.len() ==> key_lt(out[a].0, out[b].0),
        forall|i: int| #![trigger inserted[i]]
            0 <= i < inserted.len() && inserted[i].0.len() > 0 ==> exists|j: int|
                0 <= j < out.len() && (#[trigger] out[j]).0 == inserted[i].0,
        forall|j: int| #![trigger out[j]]
            0 <= j < out.len() ==> exists|i: int|
                0 <= i < inserted.len() && (#[trigger] inserted[i]).0 == out[j].0,
        forall|i: int, j: int| #![trigger inserted[i], out[j]]
            0 <= i < inserted.len() && 0 <= j < out.len() && out[j].0.len() == 0
                ==> inserted[i].0.len() == 0,
        inserted.len() > 0 ==> out.len() > 0,
{
    let none = Seq::<u8>::empty();
    assert forall|i: int| #![trigger inserted[i]]
        0 <= i < inserted.len() && inserted[i].0.len() > 0 implies exists|j: int|
        0 <= j < out.len() && (#[trigger] out[j]).0 == inserted[i].0 by {
        let key = inserted[i].0;
        vals_of_present(inserted, i);
        assert(key_stands_for(merge, key, vals_of(out, key), vals_of(inserted, key)));
        let j = somewhere(out, key);
        assert(out[j].0 == key);
    }
    assert forall|j: int| #![trigger out[j]] 0 <= j < out.len() implies exists|i: int|
        0 <= i < inserted.len() && (#[trigger] inserted[i]).0 == out[j].0 by {
        let key = out[j].0;
        vals_of_present(out, j);
        if key.len() > 0 {
            assert(key_stands_for(merge, key, vals_of(out, key), vals_of(inserted, key)));
        } else {
            assert(key =~= none);
        }
        let i = somewhere(inserted, key);
        assert(inserted[i].0 == key);
    }
    assert forall|i: int, j: int| #![trigger inserted[i], out[j]]
        0 <= i < inserted.len() && 0 <= j < out.len() && out[j].0.len() == 0 implies
        inserted[i].0.len() == 0 by {
        assert(out[j].0 =~= none);
        vals_of_present(out, j);
    }
    if inserted.len() > 0 && out.len() == 0 {
        vals_of_present(inserted, 0);
        if inserted[0].0.len() == 0 {
            assert(inserted[0].0 =~= none);
            if has_other_key(inserted) {
                let i = choose|i: int|
                    0 <= i < inserted.len() && (#[trigger] inserted[i]).0.len() > 0;
                assert(inserted[i].0.len() > 0);
            }
        }
    }
}

/// A value that was made of others by merging, in one step or more, has every property of
/// all of them and in their order that calls of the merge function keep: one that what a
/// call answers has of its values wherever each of these is one of the others or has the
/// property of some of them itself.
pub proof fn made_value_has<MF, U>(
    merge: MF,
    key: Seq<u8>,
    inserted: Seq<Seq<u8>>,
    value: Seq<u8>,
    property: spec_fn(Seq<Seq<u8>>, Seq<u8>) -> bool,
) where MF: for <'a>Fn(&[u8], &[Cow<'a, [u8]>]) -> Result<Cow<'a, [u8]>, U>
    requires
        made_of(merge, key, inserted, value),
        forall|
            k: &[u8],
            vs: &[Cow<'static, [u8]>],
            val: Cow<'static, [u8]>,
            parts: Seq<Seq<Seq<u8>>>,
        |
            #![trigger call_ensures(merge, (k, vs), Ok::<_, U>(val)), parts.flatten()]
            {
                &&& call_ensures(merge, (k, vs), Ok::<_, U>(val))
                &&& k@ == key
                &&& parts.len() == vs@.len()
                &&& parts.len() > 0
                &&& forall|i: int| #![trigger parts[i]]
                    0 <= i < parts.len() ==> parts[i] == seq![vs@[i]@] || property(
                        parts[i],
                        vs@[i]@,
                    )
            } ==> property(parts.flatten(), val@),
    ensures
        property(inserted, value),
{
    assert(kept_by_merging(merge, key, property)) by {
        assert forall|parts: Seq<Seq<Seq<u8>>>, vals: Seq<Seq<u8>>, made: Seq<u8>|
            #![trigger concat(parts), merges_to(merge, key, vals, Ok::<_, U>(made))]
            {
                &&& parts.len() == vals.len()
                &&& vals.len() > 0
                &&& forall|i: int| #![trigger parts[i]]
                    0 <= i < parts.len() ==> parts[i] == seq![vals[i]] || property(
                        parts[i],
                        vals[i],
                    )
                &&& merges_to(merge, key, vals, Ok::<_, U>(made))
            } implies property(concat(parts), made) by {
            merging_is_a_call(merge, key, vals, Ok::<_, U>(made));
            let (k, vs, r) = choose|
                k: &[u8],
                vs: &[Cow<'static, [u8]>],
                r: Result<Cow<'static, [u8]>, U>,
            |
                {
                    &&& #[trigger] call_ensures(merge, (k, vs), r)
                    &&& k@ == key
                    &&& vs@.len() == vals.len()
                    &&& forall|i: int| 0 <= i < vals.len() ==> (#[trigger] vs@[i])@ == vals[i]
                    &&& match r {
                        Ok(val) => val@ == made,
                        Err(e) => false,
                    }
                };
            assert(call_ensures(merge, (k, vs), Ok::<Cow<'static, [u8]>, U>(r->Ok_0)));
            concat_flattens(parts);
            assert forall|i: int| #![trigger parts[i]] 0 <= i < parts.len() implies parts[i]
                == seq![vs@[i]@] || property(parts[i], vs@[i]@) by {
                assert(vs@[i]@ == vals[i]);
            }
            assert(property(parts.flatten(), r->Ok_0@));
        }
    }
}

/// The value that is sorted out of a key was made of all the values that were inserted with
/// the key, in their order: it has every property of them that calls of the merge function
/// keep.
pub proof fn sorted_value_has<MF, U>(
    merge: MF,
    out: Seq<KeyVal>,
    inserted: Seq<KeyVal>,
    j: int,
    property: spec_fn(Seq<Seq<u8>>, Seq<u8>) -> bool,
) where MF: for <'a>Fn(&[u8], &[Cow<'a, [u8]>]) -> Result<Cow<'a, [u8]>, U>
    requires
        sorts_out(merge, out, inserted),
        0 <= j < out.len(),
        out[j].0.len() > 0,
        forall|
            k: &[u8],
            vs: &[Cow<'static, [u8]>],
            val: Cow<'static, [u8]>,
            parts: Seq<Seq<Seq<u8>>>,
        |
            #![trigger call_ensures(merge, (k, vs), Ok::<_, U>(val)), parts.flatten()]
            {
                &&& call_ensures(merge, (k, vs), Ok::<_, U>(val))
                &&& k@ == out[j].0
                &&& parts.len() == vs@.len()
                &&& parts.len() > 0
                &&& forall|i: int| #![trigger parts[i]]
                    0 <= i < parts.len() ==> parts[i] == seq![vs@[i]@] || property(
                        parts[i],
                        vs@[i]@,
                    )
            } ==> property(parts.flatten(), val@),
    ensures
        property(vals_of(inserted, out[j].0), out[j].1),
{
    let key = out[j].0;
    vals_of_sorted(out, j);
    assert(key_stands_for(merge, key, vals_of(out, key), vals_of(inserted, key)));
    made_value_has(merge, key, vals_of(inserted, key), out[j].1, property);
}

/// Where every call of the merge function makes of values what `f` says, and that is the
/// same where parts of the values are merged first, the value that is sorted out of a key
/// is what `f` says of all the values that were inserted with it, in their order.
pub proof fn sorted_value_is<MF, U>(
    merge: MF,
    f: spec_fn(Seq<u8>, Seq<Seq<u8>>) -> Seq<u8>,
    out: Seq<KeyVal>,
    inserted: Seq<KeyVal>,
    j: int,
) where MF: for <'a>Fn(&[u8], &[Cow<'a, [u8]>]) -> Result<Cow<'a, [u8]>, U>
    requires
        sorts_out(merge, out, inserted),
        0 <= j < out.len(),
        out[j].0.len() > 0,
        forall|k: &[u8], vs: &[Cow<'static, [u8]>], val: Cow<'static, [u8]>|
            #[trigger] call_ensures(merge, (k, vs), Ok::<_, U>(val)) ==> val@ == f(
                k@,
                Seq::new(vs@.len(), |i: int| vs@[i]@),
            ),
        forall|key: Seq<u8>, parts: Seq<Seq<Seq<u8>>>, vals: Seq<Seq<u8>>|
            #![trigger parts.flatten(), f(key, vals)]
            {
                &&& parts.len() == vals.len()
                &&& vals.len() > 0
                &&& forall|i: int| #![trigger parts[i]]
                    0 <= i < parts.len() ==> parts[i] == seq![vals[i]] || vals[i] == f(
                        key,
                        parts[i],
                    )
            } ==> f(key, vals) == f(key, parts.flatten()),
    ensures
        out[j].1 == f(out[j].0, vals_of(inserted, out[j].0)),
{
    let key = out[j].0;
    let property = |vals: Seq<Seq<u8>>, made: Seq<u8>| made == f(key, vals);
    assert forall|
        k: &[u8],
        vs: &[Cow<'static, [u8]>],
        val: Cow<'static, [u8]>,
        parts: Seq<Seq<Seq<u8>>>,
    |
        #![trigger call_ensures(merge, (k, vs), Ok::<_, U>(val)), parts.flatten()]
        {
            &&& call_ensures(merge, (k, vs), Ok::<_, U>(val))
            &&& k@ == key
            &&& parts.len() == vs@.len()
            &&& parts.len() > 0
            &&& forall|i: int| #![trigger parts[i]]
                0 <= i < parts.len() ==> parts[i] == seq![vs@[i]@] || property(parts[i], vs@[i]@)
        } implies property(parts.flatten(), val@) by {
        let vals = Seq::new(vs@.len(), |i: int| vs@[i]@);
        assert(val@ == f(key, vals));
        assert forall|i: int| #![trigger parts[i]] 0 <= i < parts.len() implies parts[i]
            == seq![vals[i]] || vals[i] == f(key, parts[i]) by {}
    }
    sorted_value_has(merge, out, inserted, j, property);
}

/// Where every call of the merge function puts the values one after the other, the value
/// that is sorted out of a key is all the values that were inserted with it, one after the
/// other and in the order in which they were inserted.
pub proof fn sorted_value_concatenates<MF, U>(
    merge: MF,
    out: Seq<KeyVal>,
    inserted: Seq<KeyVal>,
    j: int,
) where MF: for <'a>Fn(&[u8], &[Cow<'a, [u8]>]) -> Result<Cow<'a, [u8]>, U>
    requires
        sorts_out(merge, out, inserted),
        0 <= j < out.len(),
        out[j].0.len() > 0,
        forall|k: &[u8], vs: &[Cow<'static, [u8]>], val: Cow<'static, [u8]>|
            #[trigger] call_ensures(merge, (k, vs), Ok::<_, U>(val)) ==> val@ == Seq::new(
                vs@.len(),
                |i: int| vs@[i]@,
            ).flatten(),
    ensures
        ({
            let key = out[j].0;
            out[j].1 == inserted.filter(|entry: KeyVal| entry.0 == key).map_values(
                |entry: KeyVal| entry.1,
            ).flatten()
        }),
{
    let f = |key: Seq<u8>, vals: Seq<Seq<u8>>| vals.flatten();
    assert forall|key: Seq<u8>, parts: Seq<Seq<Seq<u8>>>, vals: Seq<Seq<u8>>|
        #![trigger parts.flatten(), f(key, vals)]
        {
            &&& parts.len() == vals.len()
            &&& vals.len() > 0
            &&& forall|i: int| #![trigger parts[i]]
                0 <= i < parts.len() ==> parts[i] == seq![vals[i]] || vals[i] == f(key, parts[i])
        } implies f(key, vals) == f(key, parts.flatten()) by {
        let joined = parts.map_values(|part: Seq<Seq<u8>>| concat(part));
        assert forall|i: int| 0 <= i < parts.len() implies #[trigger] joined[i] == vals[i] by {
            concat_flattens(parts[i]);
            concat_one(vals[i]);
        }
        assert(joined =~= vals);
        concat_of_concats(parts);
        concat_flattens(parts);
        concat_flattens(vals);
        concat_flattens(parts.flatten());
    }
    sorted_value_is(merge, f, out, inserted, j);
    let key = out[j].0;
    vals_of_filtered(inserted, key);
    assert(out[j].1 == vals_of(inserted, key).flatten());
}

/// What a sorter yields, asked for entries one after the other until there are none, is
/// what is sorted out of all that was inserted.
pub proof fn asking_on_sorts_all<MF, U>(
    merge: MF,
    inserted: Seq<KeyVal>,
    states: Seq<Seq<Stream>>,
    out: Seq<KeyVal>,
) where MF: for <'a>Fn(&[u8], &[Cow<'a, [u8]>]) -> Result<Cow<'a, [u8]>, U>
    requires
        states.len() == out.len() + 2,
        sorts_into(merge, states[0], inserted),
        forall|i: int| #![trigger out[i]]
            0 <= i < out.len() ==> merge_relation(
                merge,
                states[i],
                false,
                Ok::<_, Error<U>>(Some(out[i])),
                states[i + 1],
                false,
            ),
        merge_relation(
            merge,
            states[out.len() as int],
            false,
            Ok::<_, Error<U>>(None),
            states.last(),
            false,
        ),
    ensures
        sorts_out(merge, out, inserted),
{
    assert forall|i: int, j: int, k: int|
        #![trigger states[0][i].entries[j], states[0][i].entries[k]]
        0 <= i < states[0].len() && 0 <= j < k < states[0][i].entries.len() implies key_le(
        states[0][i].entries[j].0,
        states[0][i].entries[k].0,
    ) by {
        assert(ascending(states[0][i].entries));
    }
    asking_on_merges_all(merge, states, out);
}

/// A merge into a writer that succeeds puts all that merging the sources yields behind
/// what was in the writer before. The sources are those readers that have an entry.
pub proof fn merge_is_written<R: Read, MF, U>(
    merge: MF,
    readers: Seq<Reader<R>>,
    before: WriterView,
    after: WriterView,
) -> (out: Seq<KeyVal>) where MF: for <'a>Fn(&[u8], &[Cow<'a, [u8]>]) -> Result<Cow<'a, [u8]>, U>
    requires
        merge_write_relation(merge, readers, before, Ok::<(), Error<U>>(()), after),
        forall|i: int| #![trigger readers[i]]
            0 <= i < readers.len() ==> stream(readers[i]@).end is End,
    ensures
        merges_into(
            merge,
            readers.map_values(|reader: Reader<R>| stream(reader@)).filter(
                |source: Stream| source.entries.len() > 0,
            ),
            out,
        ),
        after.blocks.flatten() + after.current == before.blocks.flatten() + before.current + out,
        after.start == before.start,
        after.compression == before.compression,
        after.block_size == before.block_size,
{
    let all = streams(readers);
    assert forall|i: int| #![trigger all[i]] 0 <= i < all.len() implies all[i].entries.len() > 0
        || all[i].end is End by {
        assert(all[i] == stream(readers[i]@));
    }
    sources_with_entries(all);
    let sources = opened_sources(all)->Ok_0;
    let out = choose|out: Seq<KeyVal>| #[trigger]
        writes_out(merge, sources, before, out, Ok::<(), Error<U>>(()), after);
    inserted_all_entries(before, out);
    concat_flattens(before.blocks);
    concat_flattens(after.blocks);
    out
}

/// A sort into a writer that succeeds puts what is sorted out of all that was inserted
/// behind what was in the writer before.
pub proof fn sort_is_written<MF, U>(
    merge: MF,
    inserted: Seq<KeyVal>,
    before: WriterView,
    after: WriterView,
) -> (out: Seq<KeyVal>) where MF: for <'a>Fn(&[u8], &[Cow<'a, [u8]>]) -> Result<Cow<'a, [u8]>, U>
    requires
        sort_write_relation(merge, inserted, before, Ok::<(), Error<U>>(()), after),
    ensures
        sorts_out(merge, out, inserted),
        after.blocks.flatten() + after.current == before.blocks.flatten() + before.current + out,
        after.start == before.start,
        after.compression == before.compression,
        after.block_size == before.block_size,
{
    let out = choose|out: Seq<KeyVal>|
        {
            &&& #[trigger] sorts_out(merge, out, inserted)
            &&& after == inserted_all(before, out)
        };
    inserted_all_entries(before, out);
    concat_flattens(before.blocks);
    concat_flattens(after.blocks);
    out
}

/// A writer without compression takes all that comes of a merge or a sort where keys and
/// values are each shorter than 4 GiB.
pub proof fn all_are_accepted(w: WriterView, out: Seq<KeyVal>)
    requires
        w.compression is Uncompressed,
        forall|i: int|
            0 <= i < out.len() ==> (#[trigger] out[i]).0.len() < 0x1_0000_0000 && out[i].1.len()
                < 0x1_0000_0000,
    ensures
        accepts_all(w, out),
{
    reveal(accepts_all);
    assert forall|j: int| #![trigger out[j]] 0 <= j < out.len() implies inserted_all(
        w,
        out.take(j),
    ).accepts(out[j]) by {
        inserted_all_entries(w, out.take(j));
    }
}

/// What chunks are merged into is all that merging those of them yields that hold an
/// entry.
pub proof fn merged_chunk<MF, U>(
    merge: MF,
    compression: CompressionType,
    runs: Seq<Seq<KeyVal>>,
    out: Seq<KeyVal>,
) where MF: for <'a>Fn(&[u8], &[Cow<'a, [u8]>]) -> Result<Cow<'a, [u8]>, U>
    requires
        chunks_merge_as(merge, compression, runs, out),
    ensures
        merges_into(
            merge,
            runs.map_values(
                |run: Seq<KeyVal>| Stream { entries: run, end: StreamEnd::End },
            ).filter(|source: Stream| source.entries.len() > 0),
            out,
        ),
{
    chunks_with_entries(runs);
}

/// A merge of chunks into a writer that succeeds puts all that merging them yields behind
/// what was in the writer before.
pub proof fn chunks_are_written<MF, CC, U>(
    merge: MF,
    creation: CC,
    runs: Seq<Seq<KeyVal>>,
    before: WriterView,
    write_faults: Set<std::io::Error>,
    after: WriterView,
) -> (out: Seq<KeyVal>) where
    MF: for <'a>Fn(&[u8], &[Cow<'a, [u8]>]) -> Result<Cow<'a, [u8]>, U>,
    CC: ChunkCreation,

    requires
        runs_write_relation(
            merge,
            creation,
            runs,
            before,
            write_faults,
            Ok::<(), Error<U>>(()),
            after,
        ),
    ensures
        merges_into(merge, run_sources(runs), out),
        after.blocks.flatten() + after.current == before.blocks.flatten() + before.current + out,
        after.start == before.start,
        after.compression == before.compression,
        after.block_size == before.block_size,
{
    let out = choose|out: Seq<KeyVal>| #[trigger]
        writes_out(merge, run_sources(runs), before, out, Ok::<(), Error<U>>(()), after);
    inserted_all_entries(before, out);
    concat_flattens(before.blocks);
    concat_flattens(after.blocks);
    out
}

/// A merge into a writer that a fault of a source ends has put some of what merging yields
/// behind what was in the writer before, from the first entry on.
pub proof fn some_is_written<MF, U>(
    merge: MF,
    sources: Seq<Stream>,
    before: WriterView,
    after: WriterView,
) -> (out: Seq<KeyVal>) where MF: for <'a>Fn(&[u8], &[Cow<'a, [u8]>]) -> Result<Cow<'a, [u8]>, U>
    requires
        writes_some(merge, sources, before, after),
    ensures
        rounds_yield(merge, sources, out),
        after.blocks.flatten() + after.current == before.blocks.flatten() + before.current + out,
{
    let out = choose|out: Seq<KeyVal>|
        {
            &&& #[trigger] rounds_yield(merge, sources, out)
            &&& accepts_all(before, out)
            &&& after == inserted_all(before, out)
        };
    inserted_all_entries(before, out);
    concat_flattens(before.blocks);
    concat_flattens(after.blocks);
    out
}

/// Where a merge of sorted sources into a writer stops and nothing faults, the merge
/// function failed on all values of a key, or it made something of them that the writer
/// does not take. There is no other error.
pub proof fn why_a_merge_stops<MF, U>(
    merge: MF,
    sources: Seq<Stream>,
    w: WriterView,
    e: Error<U>,
    after: WriterView,
) -> (at: (Seq<u8>, Seq<Seq<u8>>)) where
    MF: for <'a>Fn(&[u8], &[Cow<'a, [u8]>]) -> Result<Cow<'a, [u8]>, U>,

    requires
        forall|i: int| #![trigger sources[i]]
            0 <= i < sources.len() ==> sources[i].entries.len() > 0 && sources[i].end is End,
        forall|i: int, j: int, k: int| #![trigger sources[i].entries[j], sources[i].entries[k]]
            0 <= i < sources.len() && 0 <= j < k < sources[i].entries.len() ==> key_le(
                sources[i].entries[j].0,
                sources[i].entries[k].0,
            ),
        stops(merge, sources, w, e, after),
    ensures
        at.0.len() > 0 ==> at.1 == values_at(sources, at.0),
        at.0.len() == 0 ==> at.1 == seq![values_at(sources, at.0).last()],
        match e {
            Error::Merge(failure) => merges_to(merge, at.0, at.1, Err::<Seq<u8>, U>(failure))
                && after == w,
            Error::Io(IoError::InvalidInput) => exists|val: Seq<u8>|
                {
                    &&& #[trigger] merges_to(merge, at.0, at.1, Ok::<_, U>(val))
                    &&& !w.accepts((at.0, val))
                    &&& after == w.refused((at.0, val))
                },
            _ => false,
        },
{
    assert(proper(sources));
    gather_sorted(sources, Seq::empty(), false);
    let g = gathered(sources);
    if g.key.len() == 0 {
        assert(g.key =~= Seq::empty());
    }
    (g.key, g.vals)
}

/// What rounds of merging sorted sources have yielded so far has keys that increase
/// strictly, each with what the merge function makes, in one call, of all its values in all
/// sources. No key that is not empty was passed over.
pub proof fn part_of_a_merge<MF, U>(merge: MF, sources: Seq<Stream>, out: Seq<KeyVal>, j: int) where
    MF: for <'a>Fn(&[u8], &[Cow<'a, [u8]>]) -> Result<Cow<'a, [u8]>, U>,

    requires
        forall|i: int| #![trigger sources[i]]
            0 <= i < sources.len() ==> sources[i].entries.len() > 0 && sources[i].end is End,
        forall|i: int, j: int, k: int| #![trigger sources[i].entries[j], sources[i].entries[k]]
            0 <= i < sources.len() && 0 <= j < k < sources[i].entries.len() ==> key_le(
                sources[i].entries[j].0,
                sources[i].entries[k].0,
            ),
        rounds_yield(merge, sources, out),
        0 <= j < out.len(),
        out[j].0.len() > 0,
    ensures
        merges_to(merge, out[j].0, values_at(sources, out[j].0), Ok::<_, U>(out[j].1)),
        forall|i: int| #![trigger out[i]] 0 <= i < j ==> key_lt(out[i].0, out[j].0),
        forall|n: int, m: int| #![trigger sources[n].entries[m]]
            0 <= n < sources.len() && 0 <= m < sources[n].entries.len()
                && sources[n].entries[m].0.len() > 0 && key_lt(
                sources[n].entries[m].0,
                out[j].0,
            ) ==> exists|i: int| 0 <= i < j && (#[trigger] out[i]).0 == sources[n].entries[m].0,
{
    assert(proper(sources));
    let left = after_rounds(sources, j as nat);
    let key = out[j].0;
    after_rounds_proper(sources, j as nat);
    assert(round_yields(merge, left, out[j]));
    gather_sorted(left, Seq::empty(), false);
    rounds_values(sources, j as nat, key);
    rounds_sorted(merge, sources, out);
    assert forall|n: int, m: int| #![trigger sources[n].entries[m]]
        0 <= n < sources.len() && 0 <= m < sources[n].entries.len()
            && sources[n].entries[m].0.len() > 0 && key_lt(
            sources[n].entries[m].0,
            out[j].0,
        ) implies exists|i: int|
        0 <= i < j && (#[trigger] out[i]).0 == sources[n].entries[m].0 by {
        let k = sources[n].entries[m].0;
        values_at_present(sources, n, m);
        if values_at(left, k).len() > 0 {
            key_le_antisymmetric(k, key);
        }
        let i = consumed(merge, sources, out, j as nat, k);
        assert(out[i].0 == k);
    }
}

/// A key of which rounds of merging have left nothing was yielded by one of them.
proof fn consumed<MF, U>(
    merge: MF,
    sources: Seq<Stream>,
    out: Seq<KeyVal>,
    n: nat,
    key: Seq<u8>,
) -> (i: int) where MF: for <'a>Fn(&[u8], &[Cow<'a, [u8]>]) -> Result<Cow<'a, [u8]>, U>
    requires
        proper(sources),
        rounds_yield(merge, sources, out),
        n <= out.len(),
        key.len() > 0,
        values_at(sources, key).len() > 0,
        values_at(after_rounds(sources, n), key).len() == 0,
    ensures
        0 <= i < n,
        out[i].0 == key,
    decreases n,
{
    let m = (n - 1) as nat;
    let left = after_rounds(sources, m);
    after_rounds_proper(sources, m);
    assert(round_yields(merge, left, out[m as int]));
    gather_sorted(left, Seq::empty(), false);
    if values_at(left, key).len() == 0 {
        consumed(merge, sources, out, m, key)
    } else {
        let g = gathered(left);
        if g.key != key {
            assert(values_at(g.sources, key) == values_at(left, key));
        }
        m as int
    }
}

/// Where writing sorted entries stops, what was written before is of what was inserted: its
/// keys increase strictly, and the value of each was made of all the values that were
/// inserted with it, in their order. The error is one of the merge function, or that
/// something it made is refused.
pub proof fn part_of_a_sort<MF, U>(
    merge: MF,
    inserted: Seq<KeyVal>,
    before: WriterView,
    e: Error<U>,
    after: WriterView,
) -> (out: Seq<KeyVal>) where MF: for <'a>Fn(&[u8], &[Cow<'a, [u8]>]) -> Result<Cow<'a, [u8]>, U>
    requires
        sort_write_relation(merge, inserted, before, Err::<(), _>(e), after),
    ensures
        forall|a: int, b: int| #![trigger out[a], out[b]]
            0 <= a < b < out.len() ==> key_lt(out[a].0, out[b].0),
        forall|j: int| #![trigger out[j]]
            0 <= j < out.len() && out[j].0.len() > 0 ==> made_of(
                merge,
                out[j].0,
                vals_of(inserted, out[j].0),
                out[j].1,
            ),
        match e {
            Error::Merge(_) => after == inserted_all(before, out),
            Error::Io(IoError::InvalidInput) => exists|entry: KeyVal|
                {
                    &&& !#[trigger] inserted_all(before, out).accepts(entry)
                    &&& after == inserted_all(before, out).refused(entry)
                },
            _ => false,
        },
{
    let out = choose|out: Seq<KeyVal>|
        {
            &&& #[trigger] begins_to_sort_out(merge, out, inserted)
            &&& sort_stops(merge, inserted, inserted_all(before, out), e, after)
        };
    assert forall|j: int| #![trigger out[j]] 0 <= j < out.len() && out[j].0.len() > 0 implies
        made_of(merge, out[j].0, vals_of(inserted, out[j].0), out[j].1) by {
        assert(entry_stands_for(merge, out[j], inserted));
    }
    let w = inserted_all(before, out);
    if e matches Error::Io(IoError::InvalidInput) {
        let (key, part, val) = choose|key: Seq<u8>, part: Seq<Seq<u8>>, val: Seq<u8>|
            {
                &&& #[trigger] made_of(merge, key, part, val)
                &&& is_part(part, vals_of(inserted, key))
                &&& !w.accepts((key, val))
                &&& after == w.refused((key, val))
            };
        assert(!w.accepts((key, val)));
    }
    out
}

} // verus!
