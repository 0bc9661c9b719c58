//! Sorted runs of entries, and what merging makes of them.

use crate::error::Error;
use crate::format::{KeyVal, Stream};
use crate::merge::{
    after_rounds, all_headed, entry_count, gather, gathered, head_key, least, least_in_range,
    merge_relation, merges_into, merges_to, round_yields, rounds_yield, taken, taken_progress,
};
use crate::order::{
    key_le, key_le_antisymmetric, key_le_reflexive, key_le_total, key_le_transitive, key_lt,
    key_lt_le_transitive,
};
use crate::seqs::{concat, concat_add, concat_flattens, concat_push};
use std::borrow::Cow;
use vstd::prelude::*;

verus! {

/// Whether the keys of entries increase strictly.
pub open spec fn sorted(entries: Seq<KeyVal>) -> bool {
    forall|i: int, j: int| #![trigger entries[i], entries[j]]
        0 <= i < j < entries.len() ==> key_lt(entries[i].0, entries[j].0)
}

/// The values of a key, in the order of the entries.
pub open spec fn vals_of(entries: Seq<KeyVal>, key: Seq<u8>) -> Seq<Seq<u8>>
    decreases entries.len(),
{
    if entries.len() == 0 {
        Seq::empty()
    } else {
        let before = vals_of(entries.drop_last(), key);
        if entries.last().0 == key {
            before.push(entries.last().1)
        } else {
            before
        }
    }
}

/// The values of a key are those of the entries that have it, all of them and in their
/// order.
pub proof fn vals_of_filtered(entries: Seq<KeyVal>, key: Seq<u8>)
    ensures
        vals_of(entries, key) == entries.filter(|entry: KeyVal| entry.0 == key).map_values(
            |entry: KeyVal| entry.1,
        ),
    decreases entries.len(),
{
    reveal(Seq::filter);
    let has_key = |entry: KeyVal| entry.0 == key;
    let val = |entry: KeyVal| entry.1;
    if entries.len() > 0 {
        vals_of_filtered(entries.drop_last(), key);
        let before = entries.drop_last().filter(has_key);
        if entries.last().0 == key {
            assert(before.push(entries.last()).map_values(val) =~= before.map_values(val).push(
                entries.last().1,
            ));
        }
    }
    assert(vals_of(entries, key) =~= entries.filter(has_key).map_values(val));
}

/// Whether the keys of entries do not decrease.
pub open spec fn ascending(entries: Seq<KeyVal>) -> bool {
    forall|i: int, j: int| #![trigger entries[i], entries[j]]
        0 <= i < j < entries.len() ==> key_le(entries[i].0, entries[j].0)
}

/// Keys that do not decrease, and keys that increase strictly, do so from each entry to
/// every later one.
pub proof fn order_of_entries(entries: Seq<KeyVal>, i: int, j: int)
    requires
        0 <= i < j < entries.len(),
    ensures
        ascending(entries) ==> key_le(entries[i].0, entries[j].0),
        sorted(entries) ==> key_lt(entries[i].0, entries[j].0),
{
}

/// Whether two lists of entries have the same values for every key, in the same
/// order.
pub open spec fn same_values(a: Seq<KeyVal>, b: Seq<KeyVal>) -> bool {
    forall|key: Seq<u8>| #![trigger vals_of(a, key)] #![trigger vals_of(b, key)]
        vals_of(a, key) == vals_of(b, key)
}

/// The values of a key in two runs of entries, one after the other.
pub proof fn vals_of_add(a: Seq<KeyVal>, b: Seq<KeyVal>, key: Seq<u8>)
    ensures
        vals_of(a + b, key) == vals_of(a, key) + vals_of(b, key),
    decreases b.len(),
{
    if b.len() == 0 {
        assert(a + b =~= a);
        assert(vals_of(a, key) + vals_of(b, key) =~= vals_of(a, key));
    } else {
        vals_of_add(a, b.drop_last(), key);
        assert((a + b).drop_last() =~= a + b.drop_last());
        assert(vals_of(a + b, key) =~= vals_of(a, key) + vals_of(b, key));
    }
}

/// The same entry after entries with the same values leaves the values the same.
pub proof fn same_values_push(a: Seq<KeyVal>, b: Seq<KeyVal>, entry: KeyVal)
    requires
        same_values(a, b),
    ensures
        same_values(a.push(entry), b.push(entry)),
{
    assert forall|key: Seq<u8>| #![trigger vals_of(a.push(entry), key)]
        vals_of(a.push(entry), key) == vals_of(b.push(entry), key) by {
        assert(a.push(entry).drop_last() =~= a);
        assert(b.push(entry).drop_last() =~= b);
        assert(vals_of(a, key) == vals_of(b, key));
    }
}

/// The values of a key in entries, of which the first is taken by itself.
pub proof fn vals_of_front(entries: Seq<KeyVal>, key: Seq<u8>)
    requires
        entries.len() > 0,
    ensures
        vals_of(entries, key) == (if entries[0].0 == key {
            seq![entries[0].1]
        } else {
            Seq::empty()
        }) + vals_of(entries.drop_first(), key),
{
    let first = seq![entries[0]];
    vals_of_add(first, entries.drop_first(), key);
    assert(first + entries.drop_first() =~= entries);
    reveal_with_fuel(vals_of, 2);
    assert(first.drop_last() =~= Seq::empty());
    assert(vals_of(first, key) =~= if entries[0].0 == key {
        seq![entries[0].1]
    } else {
        Seq::empty()
    });
}

/// A key that no entry has, has no values.
pub proof fn vals_of_absent(entries: Seq<KeyVal>, key: Seq<u8>)
    requires
        forall|i: int| 0 <= i < entries.len() ==> (#[trigger] entries[i]).0 != key,
    ensures
        vals_of(entries, key) == Seq::<Seq<u8>>::empty(),
    decreases entries.len(),
{
    if entries.len() > 0 {
        assert(entries[entries.len() - 1].0 != key);
        assert forall|i: int| 0 <= i < entries.drop_last().len() implies (
        #[trigger] entries.drop_last()[i]).0 != key by {
            assert(entries.drop_last()[i] == entries[i]);
        }
        vals_of_absent(entries.drop_last(), key);
    }
}

/// A key that an entry has, has values.
pub proof fn vals_of_present(entries: Seq<KeyVal>, i: int)
    requires
        0 <= i < entries.len(),
    ensures
        vals_of(entries, entries[i].0).len() > 0,
    decreases entries.len(),
{
    if i < entries.len() - 1 {
        vals_of_present(entries.drop_last(), i);
    }
}

/// In a sorted run a key has at most one value.
pub proof fn vals_of_sorted(entries: Seq<KeyVal>, i: int)
    requires
        sorted(entries),
        0 <= i < entries.len(),
    ensures
        vals_of(entries, entries[i].0) == seq![entries[i].1],
{
    let key = entries[i].0;
    let a = entries.take(i);
    let b = entries.skip(i);
    vals_of_add(a, b, key);
    assert(a + b =~= entries);
    vals_of_front(b, key);
    vals_of_absent(a, key);
    vals_of_absent(b.drop_first(), key);
    assert(vals_of(entries, key) =~= seq![entries[i].1]);
}

proof fn vals_of_somewhere(entries: Seq<KeyVal>, key: Seq<u8>) -> (i: int)
    requires
        vals_of(entries, key).len() > 0,
    ensures
        0 <= i < entries.len(),
        entries[i].0 == key,
{
    if forall|i: int| 0 <= i < entries.len() ==> (#[trigger] entries[i]).0 != key {
        vals_of_absent(entries, key);
    }
    choose|i: int| 0 <= i < entries.len() && (#[trigger] entries[i]).0 == key
}

/// Sorted runs that have the same values for every key are the same run.
pub proof fn sorted_same_values(a: Seq<KeyVal>, b: Seq<KeyVal>)
    requires
        sorted(a),
        sorted(b),
        same_values(a, b),
    ensures
        a == b,
    decreases a.len(),
{
    if a.len() == 0 || b.len() == 0 {
        if a.len() > 0 {
            vals_of_present(a, 0);
            assert(vals_of(a, a[0].0) == vals_of(b, a[0].0));
        }
        if b.len() > 0 {
            vals_of_present(b, 0);
            assert(vals_of(a, b[0].0) == vals_of(b, b[0].0));
        }
        assert(a =~= b);
    } else {
        let (x, y) = (a.last(), b.last());
        vals_of_present(a, a.len() - 1);
        vals_of_present(b, b.len() - 1);
        assert(vals_of(a, x.0) == vals_of(b, x.0));
        assert(vals_of(a, y.0) == vals_of(b, y.0));
        let i = vals_of_somewhere(b, x.0);
        let j = vals_of_somewhere(a, y.0);
        if x.0 != y.0 {
            assert(key_lt(b[i].0, b[b.len() - 1].0));
            assert(key_lt(a[j].0, a[a.len() - 1].0));
            key_le_antisymmetric(x.0, y.0);
        }
        vals_of_sorted(a, a.len() - 1);
        vals_of_sorted(b, b.len() - 1);
        assert(x.1 == vals_of(a, x.0)[0]);
        assert(y.1 == vals_of(b, y.0)[0]);
        let (a1, b1) = (a.drop_last(), b.drop_last());
        assert forall|key: Seq<u8>| #![trigger vals_of(a1, key)] vals_of(a1, key) == vals_of(
            b1,
            key,
        ) by {
            assert(vals_of(a, key) == vals_of(b, key));
            if key == x.0 {
                assert(vals_of(a1, key) =~= vals_of(a, key).drop_last());
                assert(vals_of(b1, key) =~= vals_of(b, key).drop_last());
            }
        }
        assert(sorted(a1));
        assert(sorted(b1));
        sorted_same_values(a1, b1);
        assert(a =~= a1.push(x));
        assert(b =~= b1.push(y));
    }
}

/// Entries whose keys do not decrease are that without their first entry.
proof fn ascending_front(entries: Seq<KeyVal>)
    requires
        ascending(entries),
        entries.len() > 0,
    ensures
        ascending(entries.drop_first()),
{
    let rest = entries.drop_first();
    assert forall|i: int, j: int| #![trigger rest[i], rest[j]]
        0 <= i < j < rest.len() implies key_le(rest[i].0, rest[j].0) by {
        assert(rest[i] == entries[i + 1]);
        assert(rest[j] == entries[j + 1]);
    }
}

/// The values of a key in all sources, one source after the other.
pub open spec fn values_at(sources: Seq<Stream>, key: Seq<u8>) -> Seq<Seq<u8>> {
    concat(sources.map_values(|source: Stream| vals_of(source.entries, key)))
}

proof fn values_at_add(a: Seq<Stream>, b: Seq<Stream>, key: Seq<u8>)
    ensures
        values_at(a + b, key) == values_at(a, key) + values_at(b, key),
{
    let f = |source: Stream| vals_of(source.entries, key);
    concat_add(a.map_values(f), b.map_values(f));
    assert((a + b).map_values(f) =~= a.map_values(f) + b.map_values(f));
}

/// The values of a key in sources, of which the last is taken by itself.
pub proof fn values_at_push(sources: Seq<Stream>, source: Stream, key: Seq<u8>)
    ensures
        values_at(sources.push(source), key) == values_at(sources, key) + vals_of(
            source.entries,
            key,
        ),
{
    let f = |source: Stream| vals_of(source.entries, key);
    concat_push(sources.map_values(f), f(source));
    assert(sources.push(source).map_values(f) =~= sources.map_values(f).push(f(source)));
}

proof fn values_at_split(sources: Seq<Stream>, i: int, key: Seq<u8>)
    requires
        0 <= i < sources.len(),
    ensures
        values_at(sources, key) == values_at(sources.take(i), key) + vals_of(
            sources[i].entries,
            key,
        ) + values_at(sources.skip(i + 1), key),
{
    values_at_add(sources.take(i + 1), sources.skip(i + 1), key);
    assert(sources.take(i + 1) + sources.skip(i + 1) =~= sources);
    values_at_push(sources.take(i), sources[i], key);
    assert(sources.take(i).push(sources[i]) =~= sources.take(i + 1));
}

/// The values of a key in all sources are those in each of them, one source after the
/// other.
pub proof fn values_at_flattened(sources: Seq<Stream>, key: Seq<u8>)
    ensures
        values_at(sources, key) == sources.map_values(
            |source: Stream| vals_of(source.entries, key),
        ).flatten(),
{
    concat_flattens(sources.map_values(|source: Stream| vals_of(source.entries, key)));
}

/// Whether every source has an entry, its keys do not decrease and it ends without
/// failing.
pub open spec fn proper(sources: Seq<Stream>) -> bool {
    &&& all_headed(sources)
    &&& forall|i: int| #![trigger sources[i]]
        0 <= i < sources.len() ==> ascending(sources[i].entries) && sources[i].end is End
}

/// Whether every key in the sources comes after a key, or is it.
spec fn all_from(sources: Seq<Stream>, key: Seq<u8>) -> bool {
    forall|i: int, j: int| #![trigger sources[i].entries[j]]
        0 <= i < sources.len() && 0 <= j < sources[i].entries.len() ==> key_le(
            key,
            sources[i].entries[j].0,
        )
}

/// Whether every key in the sources comes after a key.
pub open spec fn all_after(sources: Seq<Stream>, key: Seq<u8>) -> bool {
    forall|i: int, j: int| #![trigger sources[i].entries[j]]
        0 <= i < sources.len() && 0 <= j < sources[i].entries.len() ==> key_lt(
            key,
            sources[i].entries[j].0,
        )
}

/// A key that no source has, has no values.
pub proof fn values_at_absent(sources: Seq<Stream>, key: Seq<u8>)
    requires
        forall|i: int, j: int| #![trigger sources[i].entries[j]]
            0 <= i < sources.len() && 0 <= j < sources[i].entries.len()
                ==> sources[i].entries[j].0 != key,
    ensures
        values_at(sources, key) == Seq::<Seq<u8>>::empty(),
    decreases sources.len(),
{
    if sources.len() == 0 {
        assert(values_at(sources, key) =~= Seq::empty());
    } else {
        let n = sources.len() - 1;
        values_at_push(sources.drop_last(), sources.last(), key);
        assert(sources.drop_last().push(sources.last()) =~= sources);
        assert forall|i: int, j: int| #![trigger sources.drop_last()[i].entries[j]]
            0 <= i < n && 0 <= j < sources.drop_last()[i].entries.len() implies
            sources.drop_last()[i].entries[j].0 != key by {
            assert(sources.drop_last()[i].entries[j] == sources[i].entries[j]);
        }
        values_at_absent(sources.drop_last(), key);
        assert forall|j: int| 0 <= j < sources.last().entries.len() implies (
        #[trigger] sources.last().entries[j]).0 != key by {
            assert(sources[n].entries[j].0 != key);
        }
        vals_of_absent(sources.last().entries, key);
        assert(values_at(sources, key) =~= Seq::empty());
    }
}

/// A key that a source has, has values.
pub proof fn values_at_present(sources: Seq<Stream>, i: int, j: int)
    requires
        0 <= i < sources.len(),
        0 <= j < sources[i].entries.len(),
    ensures
        values_at(sources, sources[i].entries[j].0).len() > 0,
{
    let key = sources[i].entries[j].0;
    values_at_split(sources, i, key);
    vals_of_present(sources[i].entries, j);
}

/// The head of the least source is at most every key of the sources, and comes
/// before the keys of the sources before it.
proof fn least_is_least(sources: Seq<Stream>, n: int)
    requires
        1 <= n <= sources.len(),
    ensures
        ({
            let k = least(sources, n);
            &&& 0 <= k < n
            &&& forall|i: int| #![trigger sources[i]]
                0 <= i < n ==> key_le(head_key(sources[k]), head_key(sources[i]))
            &&& forall|i: int| #![trigger sources[i]]
                0 <= i < k ==> key_lt(head_key(sources[k]), head_key(sources[i]))
        }),
    decreases n,
{
    least_in_range(sources, n);
    if n == 1 {
        key_le_reflexive(head_key(sources[0]));
    } else {
        least_is_least(sources, n - 1);
        let m = least(sources, n - 1);
        let head = head_key(sources[n - 1]);
        if key_lt(head, head_key(sources[m])) {
            key_le_reflexive(head);
            assert forall|i: int| #![trigger sources[i]]
                0 <= i < n - 1 implies key_lt(head, head_key(sources[i])) by {
                key_lt_le_transitive(head, head_key(sources[m]), head_key(sources[i]));
            }
        } else {
            key_le_total(head, head_key(sources[m]));
            if head == head_key(sources[m]) {
                key_le_reflexive(head);
            }
        }
    }
}

proof fn ascends_from_head(source: Stream, j: int)
    requires
        ascending(source.entries),
        0 <= j < source.entries.len(),
    ensures
        key_le(head_key(source), source.entries[j].0),
{
    key_le_reflexive(head_key(source));
    if j > 0 {
        assert(key_le(source.entries[0].0, source.entries[j].0));
    }
}

/// Taking the least head leaves proper sources, the same values of all other keys,
/// and the values of its own key without the first.
proof fn taken_least(sources: Seq<Stream>)
    requires
        proper(sources),
        sources.len() > 0,
    ensures
        ({
            let i = least(sources, sources.len() as int);
            let (head, val) = sources[i].entries[0];
            let rest = taken(sources, i);
            &&& 0 <= i < sources.len()
            &&& proper(rest)
            &&& all_from(sources, head)
            &&& all_from(rest, head)
            &&& values_at(sources, head) == seq![val] + values_at(rest, head)
            &&& forall|k: Seq<u8>| k != head ==> #[trigger] values_at(rest, k) == values_at(
                sources,
                k,
            )
        }),
{
    let n = sources.len() as int;
    let i = least(sources, n);
    least_is_least(sources, n);
    let (head, val) = sources[i].entries[0];
    let rest = taken(sources, i);
    let entries = sources[i].entries;
    taken_progress(sources, i);
    ascending_front(entries);
    assert forall|a: int, j: int| #![trigger sources[a].entries[j]]
        0 <= a < sources.len() && 0 <= j < sources[a].entries.len() implies key_le(
        head,
        sources[a].entries[j].0,
    ) by {
        ascends_from_head(sources[a], j);
        key_le_transitive(head, head_key(sources[a]), sources[a].entries[j].0);
    }
    let moved = entries.drop_first().len() > 0;
    assert forall|a: int| #![trigger rest[a]] 0 <= a < rest.len() implies ascending(rest[a].entries)
        && rest[a].end is End by {
        if moved {
            if a != i {
                assert(rest[a] == sources[a]);
            }
        } else {
            assert(rest[a] == sources[if a < i { a } else { a + 1 }]);
        }
    }
    assert forall|a: int, j: int| #![trigger rest[a].entries[j]]
        0 <= a < rest.len() && 0 <= j < rest[a].entries.len() implies key_le(
        head,
        rest[a].entries[j].0,
    ) by {
        if moved {
            if a != i {
                assert(rest[a].entries[j] == sources[a].entries[j]);
            } else {
                assert(rest[a].entries[j] == sources[i].entries[j + 1]);
            }
        } else {
            let b = if a < i {
                a
            } else {
                a + 1
            };
            assert(rest[a].entries[j] == sources[b].entries[j]);
        }
    }
    assert forall|k: Seq<u8>| true implies #[trigger] values_at(rest, k) == values_at(
        sources.take(i),
        k,
    ) + vals_of(entries.drop_first(), k) + values_at(sources.skip(i + 1), k) by {
        if moved {
            values_at_split(rest, i, k);
            assert(rest.take(i) =~= sources.take(i));
            assert(rest.skip(i + 1) =~= sources.skip(i + 1));
        } else {
            values_at_add(sources.take(i), sources.skip(i + 1), k);
            assert(rest =~= sources.take(i) + sources.skip(i + 1));
            assert(entries.drop_first() =~= Seq::empty());
            assert(values_at(rest, k) =~= values_at(sources.take(i), k) + vals_of(
                entries.drop_first(),
                k,
            ) + values_at(sources.skip(i + 1), k));
        }
    }
    assert forall|k: Seq<u8>| k != head implies #[trigger] values_at(rest, k) == values_at(
        sources,
        k,
    ) by {
        values_at_split(sources, i, k);
        vals_of_front(entries, k);
        assert(vals_of(entries, k) =~= vals_of(entries.drop_first(), k));
    }
    values_at_split(sources, i, head);
    vals_of_front(entries, head);
    assert forall|a: int, j: int| #![trigger sources.take(i)[a].entries[j]]
        0 <= a < i && 0 <= j < sources.take(i)[a].entries.len() implies
        sources.take(i)[a].entries[j].0 != head by {
        assert(sources.take(i)[a] == sources[a]);
        ascends_from_head(sources[a], j);
        key_lt_le_transitive(head, head_key(sources[a]), sources[a].entries[j].0);
    }
    values_at_absent(sources.take(i), head);
    assert(values_at(sources, head) =~= seq![val] + values_at(rest, head));
}

/// Gathering on, with a key at hand that is at most all others, takes all values
/// of that key and leaves the others.
proof fn gather_more(sources: Seq<Stream>, key: Seq<u8>, vals: Seq<Seq<u8>>, pending: bool)
    requires
        proper(sources),
        key.len() > 0,
        all_from(sources, key),
    ensures
        ({
            let g = gather(sources, key, vals, pending);
            &&& g.failure is None
            &&& g.key == key
            &&& g.pending == pending
            &&& g.vals == vals + values_at(sources, key)
            &&& proper(g.sources)
            &&& all_after(g.sources, key)
            &&& forall|k: Seq<u8>| k != key ==> #[trigger] values_at(g.sources, k) == values_at(
                sources,
                k,
            )
        }),
    decreases entry_count(sources),
{
    if sources.len() == 0 {
        assert(values_at(sources, key) =~= Seq::empty());
        assert(vals + values_at(sources, key) =~= vals);
    } else {
        let i = least(sources, sources.len() as int);
        taken_least(sources);
        taken_progress(sources, i);
        let (head, val) = sources[i].entries[0];
        assert(key_le(key, sources[i].entries[0].0));
        if key != head {
            assert forall|a: int, j: int| #![trigger sources[a].entries[j]]
                0 <= a < sources.len() && 0 <= j < sources[a].entries.len() implies key_lt(
                key,
                sources[a].entries[j].0,
            ) by {
                key_lt_le_transitive(key, head, sources[a].entries[j].0);
            }
            values_at_absent(sources, key);
            assert(vals + values_at(sources, key) =~= vals);
        } else {
            let rest = taken(sources, i);
            gather_more(rest, key, vals.push(val), pending);
            assert(vals.push(val) + values_at(rest, key) =~= vals + values_at(sources, key));
        }
    }
}

/// Gathering from sources whose keys ascend takes all values of the least key that is not
/// empty, one source after the other, and leaves those of the greater keys. Values
/// of the empty key come out only where there are no others, and then only the
/// last of them.
pub proof fn gather_sorted(sources: Seq<Stream>, vals: Seq<Seq<u8>>, pending: bool)
    requires
        proper(sources),
    ensures
        ({
            let g = gather(sources, Seq::empty(), vals, pending);
            &&& g.failure is None
            &&& g.pending == (pending || sources.len() > 0)
            &&& proper(g.sources)
            &&& g.key.len() > 0 ==> {
                &&& g.vals == values_at(sources, g.key)
                &&& g.vals.len() > 0
                &&& all_after(g.sources, g.key)
                &&& forall|k: Seq<u8>|
                    k.len() > 0 && k != g.key ==> #[trigger] values_at(g.sources, k) == values_at(
                        sources,
                        k,
                    )
                &&& forall|k: Seq<u8>|
                    k.len() > 0 && #[trigger] values_at(sources, k).len() > 0 ==> key_le(g.key, k)
            }
            &&& g.key.len() == 0 ==> {
                &&& g.sources.len() == 0
                &&& forall|k: Seq<u8>|
                    k.len() > 0 ==> #[trigger] values_at(sources, k) == Seq::<Seq<u8>>::empty()
                &&& if sources.len() == 0 {
                    g.vals == vals
                } else {
                    &&& values_at(sources, Seq::empty()).len() > 0
                    &&& g.vals == seq![values_at(sources, Seq::empty()).last()]
                }
            }
        }),
    decreases entry_count(sources),
{
    let g = gather(sources, Seq::empty(), vals, pending);
    if sources.len() == 0 {
        assert forall|k: Seq<u8>| true implies #[trigger] values_at(sources, k) == Seq::<
            Seq<u8>,
        >::empty() by {
            assert(values_at(sources, k) =~= Seq::empty());
        }
    } else {
        let i = least(sources, sources.len() as int);
        taken_least(sources);
        taken_progress(sources, i);
        let (head, val) = sources[i].entries[0];
        let rest = taken(sources, i);
        let first = Seq::<Seq<u8>>::empty().push(val);
        if head.len() == 0 {
            assert(head =~= Seq::empty());
            gather_sorted(rest, first, true);
            assert forall|k: Seq<u8>| k.len() > 0 implies #[trigger] values_at(sources, k)
                == values_at(rest, k) by {}
            assert(values_at(sources, head) == seq![val] + values_at(rest, head));
            if rest.len() == 0 {
                assert(values_at(rest, head) =~= Seq::empty());
            }
            assert(first =~= seq![val]);
        } else {
            gather_more(rest, head, first, true);
            assert(first + values_at(rest, head) =~= values_at(sources, head));
            assert forall|k: Seq<u8>|
                k.len() > 0 && #[trigger] values_at(sources, k).len() > 0 implies key_le(
                g.key,
                k,
            ) by {
                if !key_le(head, k) {
                    assert forall|a: int, j: int| #![trigger sources[a].entries[j]]
                        0 <= a < sources.len() && 0 <= j < sources[a].entries.len() implies
                        sources[a].entries[j].0 != k by {
                        assert(key_le(head, sources[a].entries[j].0));
                    }
                    values_at_absent(sources, k);
                }
            }
        }
    }
}

/// Whether sources have no key but the empty one.
pub open spec fn only_empty_key(sources: Seq<Stream>) -> bool {
    forall|k: Seq<u8>| k.len() > 0 ==> #[trigger] values_at(sources, k).len() == 0
}

/// What is merged of the values of the empty key: nothing where there is another
/// key, and the last of them otherwise.
pub open spec fn left_of_empty_key(sources: Seq<Stream>) -> Seq<Seq<u8>> {
    let vals = values_at(sources, Seq::empty());
    if vals.len() > 0 && only_empty_key(sources) {
        seq![vals.last()]
    } else {
        Seq::empty()
    }
}

/// Whether a run of entries is what a merge function makes of sorted sources: it is
/// sorted, and it has the keys of the sources, each with what the merge function
/// makes of its values. The empty key is the exception: it gives way to others.
pub open spec fn merged_run<MF, U>(
    merge: MF,
    sources: Seq<Stream>,
    out: Seq<KeyVal>,
) -> bool where MF: for <'a>Fn(&[u8], &[Cow<'a, [u8]>]) -> Result<Cow<'a, [u8]>, U> {
    &&& sorted(out)
    &&& forall|k: Seq<u8>|
        k.len() > 0 ==> #[trigger] merged_key(
            merge,
            k,
            values_at(sources, k),
            vals_of(out, k),
        )
    &&& merged_key(
        merge,
        Seq::empty(),
        left_of_empty_key(sources),
        vals_of(out, Seq::empty()),
    )
}

/// Whether a merge function makes of the values of a key what a run holds of it.
pub open spec fn merged_key<MF, U>(
    merge: MF,
    key: Seq<u8>,
    vals: Seq<Seq<u8>>,
    out: Seq<Seq<u8>>,
) -> bool where MF: for <'a>Fn(&[u8], &[Cow<'a, [u8]>]) -> Result<Cow<'a, [u8]>, U> {
    if vals.len() == 0 {
        out.len() == 0
    } else {
        out.len() == 1 && merges_to(merge, key, vals, Ok::<_, U>(out[0]))
    }
}

proof fn after_rounds_shift(sources: Seq<Stream>, n: nat)
    ensures
        after_rounds(sources, n + 1) == after_rounds(gathered(sources).sources, n),
    decreases n,
{
    reveal_with_fuel(after_rounds, 2);
    if n > 0 {
        after_rounds_shift(sources, (n - 1) as nat);
    }
}

proof fn after_is_not_empty(a: Seq<u8>, b: Seq<u8>)
    requires
        key_lt(a, b),
    ensures
        b.len() > 0,
{
    if b.len() == 0 {
        assert(a =~= b);
    }
}

proof fn merge_after<MF, U>(
    merge: MF,
    sources: Seq<Stream>,
    out: Seq<KeyVal>,
    key: Seq<u8>,
) where MF: for <'a>Fn(&[u8], &[Cow<'a, [u8]>]) -> Result<Cow<'a, [u8]>, U>
    requires
        proper(sources),
        rounds_yield(merge, sources, out),
        all_after(sources, key),
    ensures
        forall|j: int| 0 <= j < out.len() ==> key_lt(key, (#[trigger] out[j]).0),
    decreases out.len(),
{
    if out.len() > 0 {
        let g = gathered(sources);
        let rest = out.drop_first();
        gather_sorted(sources, Seq::empty(), false);
        assert(round_yields(merge, after_rounds(sources, 0), out[0]));
        assert(sources.len() > 0);
        after_is_not_empty(key, sources[0].entries[0].0);
        values_at_present(sources, 0, 0);
        assert(g.key.len() > 0);
        if !key_lt(key, g.key) {
            assert forall|a: int, j: int| #![trigger sources[a].entries[j]]
                0 <= a < sources.len() && 0 <= j < sources[a].entries.len() implies
                sources[a].entries[j].0 != g.key by {
                assert(key_lt(key, sources[a].entries[j].0));
            }
            values_at_absent(sources, g.key);
        }
        rounds_yield_rest(merge, sources, out);
        merge_after(merge, g.sources, rest, g.key);
        assert forall|j: int| 0 <= j < out.len() implies key_lt(key, (#[trigger] out[j]).0) by {
            if j > 0 {
                assert(out[j] == rest[j - 1]);
                key_lt_le_transitive(key, g.key, out[j].0);
            }
        }
    }
}

proof fn rounds_yield_rest<MF, U>(
    merge: MF,
    sources: Seq<Stream>,
    out: Seq<KeyVal>,
) where MF: for <'a>Fn(&[u8], &[Cow<'a, [u8]>]) -> Result<Cow<'a, [u8]>, U>
    requires
        rounds_yield(merge, sources, out),
        out.len() > 0,
    ensures
        rounds_yield(merge, gathered(sources).sources, out.drop_first()),
{
    let rest = out.drop_first();
    let left = gathered(sources).sources;
    assert forall|j: int| #![trigger rest[j]] 0 <= j < rest.len() implies round_yields(
        merge,
        after_rounds(left, j as nat),
        rest[j],
    ) by {
        assert(rest[j] == out[j + 1]);
        after_rounds_shift(sources, j as nat);
    }
}

/// What merging proper sources yields, to its end or not, is sorted.
pub proof fn rounds_sorted<MF, U>(
    merge: MF,
    sources: Seq<Stream>,
    out: Seq<KeyVal>,
) where MF: for <'a>Fn(&[u8], &[Cow<'a, [u8]>]) -> Result<Cow<'a, [u8]>, U>
    requires
        proper(sources),
        rounds_yield(merge, sources, out),
    ensures
        sorted(out),
    decreases out.len(),
{
    if out.len() > 0 {
        let g = gathered(sources);
        let rest = out.drop_first();
        gather_sorted(sources, Seq::empty(), false);
        assert(round_yields(merge, after_rounds(sources, 0), out[0]));
        rounds_yield_rest(merge, sources, out);
        rounds_sorted(merge, g.sources, rest);
        if g.key.len() == 0 {
            assert(rest.len() == 0) by {
                if rest.len() > 0 {
                    assert(round_yields(merge, after_rounds(g.sources, 0), rest[0]));
                }
            }
        } else {
            merge_after(merge, g.sources, rest, g.key);
        }
        assert forall|i: int, j: int| #![trigger out[i], out[j]]
            0 <= i < j < out.len() implies key_lt(out[i].0, out[j].0) by {
            assert(out[j] == rest[j - 1]);
            if i > 0 {
                assert(out[i] == rest[i - 1]);
            }
        }
    }
}

/// Rounds of gathering from proper sources leave all values of a key that is not
/// empty, or none.
pub proof fn rounds_values(sources: Seq<Stream>, n: nat, key: Seq<u8>)
    requires
        proper(sources),
        key.len() > 0,
    ensures
        ({
            let vals = values_at(after_rounds(sources, n), key);
            vals.len() == 0 || vals == values_at(sources, key)
        }),
    decreases n,
{
    if n > 0 {
        let before = after_rounds(sources, (n - 1) as nat);
        rounds_values(sources, (n - 1) as nat, key);
        after_rounds_proper(sources, (n - 1) as nat);
        gather_sorted(before, Seq::empty(), false);
        let g = gathered(before);
        if g.key.len() == 0 || key == g.key {
            values_at_absent(g.sources, key);
        }
    }
}

/// Rounds of gathering from proper sources leave no value of the empty key.
pub proof fn rounds_no_empty_key(sources: Seq<Stream>, n: nat)
    requires
        proper(sources),
        n > 0,
    ensures
        values_at(after_rounds(sources, n), Seq::empty()).len() == 0,
{
    let before = after_rounds(sources, (n - 1) as nat);
    after_rounds_proper(sources, (n - 1) as nat);
    gather_sorted(before, Seq::empty(), false);
    let g = gathered(before);
    assert forall|a: int, j: int| #![trigger g.sources[a].entries[j]]
        0 <= a < g.sources.len() && 0 <= j < g.sources[a].entries.len() implies
        g.sources[a].entries[j].0 != Seq::<u8>::empty() by {
        after_is_not_empty(g.key, g.sources[a].entries[j].0);
    }
    values_at_absent(g.sources, Seq::empty());
}

/// Rounds of gathering leave proper sources proper.
pub proof fn after_rounds_proper(sources: Seq<Stream>, n: nat)
    requires
        proper(sources),
    ensures
        proper(after_rounds(sources, n)),
    decreases n,
{
    if n > 0 {
        after_rounds_proper(sources, (n - 1) as nat);
        gather_sorted(after_rounds(sources, (n - 1) as nat), Seq::empty(), false);
    }
}

/// A key whose merge failed is consumed: nothing of it is left in the sources, and what
/// is merged next begins without its values.
pub proof fn failed_key_is_consumed<MF, U>(
    merge: MF,
    sources: Seq<Stream>,
    pending: bool,
    e: U,
    after: Seq<Stream>,
    pending_after: bool,
) where MF: for <'a>Fn(&[u8], &[Cow<'a, [u8]>]) -> Result<Cow<'a, [u8]>, U>
    requires
        proper(sources),
        merge_relation(
            merge,
            sources,
            pending,
            Err::<Option<KeyVal>, _>(Error::Merge(e)),
            after,
            pending_after,
        ),
    ensures
        ({
            let g = gather(sources, Seq::empty(), Seq::empty(), pending);
            &&& merges_to(merge, g.key, g.vals, Err::<Seq<u8>, U>(e))
            &&& values_at(after, g.key).len() == 0
            &&& forall|k: Seq<u8>|
                k.len() > 0 && k != g.key ==> #[trigger] values_at(after, k) == values_at(
                    sources,
                    k,
                )
            &&& after.len() > 0 ==> gather(after, Seq::empty(), Seq::empty(), pending_after)
                == gathered(after)
        }),
{
    let g = gather(sources, Seq::empty(), Seq::empty(), pending);
    gather_sorted(sources, Seq::empty(), pending);
    values_at_absent(g.sources, g.key);
    if g.key.len() == 0 {
        assert forall|k: Seq<u8>| k.len() > 0 implies #[trigger] values_at(after, k) == values_at(
            sources,
            k,
        ) by {
            assert(values_at(after, k) =~= Seq::empty());
        }
    }
}

/// Merging sources whose keys do not decrease yields a sorted run that has each of
/// their keys once, with what the merge function makes of its values, one source after the other.
/// The empty key is the exception: it is lost where there is another key, and all
/// its values but the last where there is none.
pub proof fn merge_of_sorted<MF, U>(
    merge: MF,
    sources: Seq<Stream>,
    out: Seq<KeyVal>,
) where MF: for <'a>Fn(&[u8], &[Cow<'a, [u8]>]) -> Result<Cow<'a, [u8]>, U>
    requires
        proper(sources),
        merges_into(merge, sources, out),
    ensures
        merged_run(merge, sources, out),
    decreases out.len(),
{
    if out.len() == 0 {
        assert(sources =~= Seq::empty());
        assert forall|k: Seq<u8>| k.len() > 0 implies #[trigger] merged_key(
            merge,
            k,
            values_at(sources, k),
            vals_of(out, k),
        ) by {
            assert(values_at(sources, k) =~= Seq::empty());
        }
        assert(values_at(sources, Seq::empty()) =~= Seq::empty());
    } else {
        let g = gathered(sources);
        let rest = out.drop_first();
        gather_sorted(sources, Seq::empty(), false);
        assert(round_yields(merge, after_rounds(sources, 0), out[0]));
        rounds_yield_rest(merge, sources, out);
        after_rounds_shift(sources, rest.len());
        rounds_sorted(merge, sources, out);
        merge_of_sorted(merge, g.sources, rest);
        if g.key.len() > 0 {
            merge_after(merge, g.sources, rest, g.key);
        } else if rest.len() > 0 {
            assert(round_yields(merge, after_rounds(g.sources, 0), rest[0]));
        }
        assert forall|k: Seq<u8>| k.len() > 0 implies #[trigger] merged_key(
            merge,
            k,
            values_at(sources, k),
            vals_of(out, k),
        ) by {
            vals_of_front(out, k);
            assert(merged_key(merge, k, values_at(g.sources, k), vals_of(rest, k)));
            if k == g.key {
                vals_of_sorted(out, 0);
                assert(vals_of(out, k)[0] == out[0].1);
            } else {
                assert(vals_of(out, k) =~= vals_of(rest, k));
                if g.key.len() == 0 {
                    assert(values_at(sources, k) == Seq::<Seq<u8>>::empty());
                } else {
                    assert(values_at(g.sources, k) == values_at(sources, k));
                }
            }
        }
        if g.key.len() == 0 {
            assert(g.key =~= Seq::empty());
            vals_of_sorted(out, 0);
            assert(only_empty_key(sources));
        } else {
            assert(values_at(sources, g.key).len() > 0);
            assert forall|j: int| 0 <= j < out.len() implies (#[trigger] out[j]).0
                != Seq::<u8>::empty() by {
                if j > 0 {
                    assert(out[j] == rest[j - 1]);
                    after_is_not_empty(g.key, out[j].0);
                }
            }
            vals_of_absent(out, Seq::empty());
        }
    }
}

/// Taking the head of a source takes nothing of the other keys.
proof fn taken_keeps_others(sources: Seq<Stream>, i: int, k: Seq<u8>)
    requires
        all_headed(sources),
        0 <= i < sources.len(),
        k != sources[i].entries[0].0,
    ensures
        values_at(taken(sources, i), k) == values_at(sources, k),
{
    let rest = taken(sources, i);
    let entries = sources[i].entries;
    vals_of_front(entries, k);
    assert(vals_of(entries, k) =~= vals_of(entries.drop_first(), k));
    values_at_split(sources, i, k);
    if entries.drop_first().len() > 0 {
        values_at_split(rest, i, k);
        assert(rest.take(i) =~= sources.take(i));
        assert(rest.skip(i + 1) =~= sources.skip(i + 1));
    } else {
        values_at_add(sources.take(i), sources.skip(i + 1), k);
        assert(rest =~= sources.take(i) + sources.skip(i + 1));
        assert(entries.drop_first() =~= Seq::empty());
        assert(values_at(rest, k) =~= values_at(sources, k));
    }
}

/// Gathering on with a key at hand takes nothing but values of that key, and takes them
/// as long as one of the least heads has it.
proof fn gather_on(sources: Seq<Stream>, key: Seq<u8>, vals: Seq<Seq<u8>>, pending: bool)
    requires
        all_headed(sources),
        forall|i: int| #![trigger sources[i]] 0 <= i < sources.len() ==> sources[i].end is End,
        key.len() > 0,
    ensures
        ({
            let g = gather(sources, key, vals, pending);
            &&& g.failure is None
            &&& g.key == key
            &&& g.pending == pending
            &&& g.vals.len() + entry_count(g.sources) == vals.len() + entry_count(sources)
            &&& vals.len() <= g.vals.len()
            &&& g.vals.take(vals.len() as int) == vals
            &&& all_headed(g.sources)
            &&& forall|k: Seq<u8>| k != key ==> #[trigger] values_at(g.sources, k) == values_at(
                sources,
                k,
            )
            &&& g.sources.len() > 0 ==> exists|i: int|
                {
                    &&& 0 <= i < g.sources.len()
                    &&& (#[trigger] g.sources[i]).entries[0].0 != key
                    &&& forall|j: int| #![trigger g.sources[j]]
                        0 <= j < g.sources.len() ==> key_le(
                            g.sources[i].entries[0].0,
                            g.sources[j].entries[0].0,
                        )
                }
        }),
    decreases entry_count(sources),
{
    let g = gather(sources, key, vals, pending);
    if sources.len() == 0 {
        assert(g.vals.take(vals.len() as int) =~= vals);
    } else {
        let n = sources.len() as int;
        let i = least(sources, n);
        least_is_least(sources, n);
        let (head, val) = sources[i].entries[0];
        if key != head {
            assert(g.vals.take(vals.len() as int) =~= vals);
            assert forall|j: int| #![trigger g.sources[j]] 0 <= j < g.sources.len() implies key_le(
                g.sources[i].entries[0].0,
                g.sources[j].entries[0].0,
            ) by {
                assert(key_le(head_key(sources[i]), head_key(sources[j])));
            }
            assert(g.sources[i].entries[0].0 != key);
        } else {
            let rest = taken(sources, i);
            taken_progress(sources, i);
            assert forall|a: int| #![trigger rest[a]] 0 <= a < rest.len() implies rest[a].end
                is End by {
                if sources[i].entries.drop_first().len() > 0 {
                    if a != i {
                        assert(rest[a] == sources[a]);
                    }
                } else {
                    assert(rest[a] == sources[if a < i { a } else { a + 1 }]);
                }
            }
            gather_on(rest, head, vals.push(val), pending);
            assert(g == gather(rest, head, vals.push(val), pending));
            assert(g.vals.take(vals.len() as int) =~= g.vals.take(
                vals.push(val).len() as int,
            ).take(vals.len() as int));
            assert(vals.push(val).take(vals.len() as int) =~= vals);
            assert forall|k: Seq<u8>| k != key implies #[trigger] values_at(g.sources, k)
                == values_at(sources, k) by {
                taken_keeps_others(sources, i, k);
                assert(values_at(g.sources, k) == values_at(rest, k));
            }
        }
    }
}

/// One round of gathering from sources of any order, without empty keys and failures, takes
/// the least key that stands at a head, and one value at least. It takes values of that key
/// only, as many as there are entries less afterwards, and goes on until the least key at
/// the heads is another.
pub proof fn gather_unsorted(sources: Seq<Stream>)
    requires
        sources.len() > 0,
        all_headed(sources),
        forall|i: int| #![trigger sources[i]] 0 <= i < sources.len() ==> sources[i].end is End,
        forall|i: int, j: int| #![trigger sources[i].entries[j]]
            0 <= i < sources.len() && 0 <= j < sources[i].entries.len()
                ==> sources[i].entries[j].0.len() > 0,
    ensures
        ({
            let g = gathered(sources);
            &&& g.pending
            &&& g.failure is None
            &&& forall|i: int| #![trigger sources[i]]
                0 <= i < sources.len() ==> key_le(g.key, sources[i].entries[0].0)
            &&& exists|i: int|
                {
                    &&& 0 <= i < sources.len()
                    &&& (#[trigger] sources[i]).entries[0].0 == g.key
                    &&& sources[i].entries[0].1 == g.vals[0]
                }
            &&& g.vals.len() > 0
            &&& g.vals.len() + entry_count(g.sources) == entry_count(sources)
            &&& forall|k: Seq<u8>| k != g.key ==> #[trigger] values_at(g.sources, k) == values_at(
                sources,
                k,
            )
            &&& g.sources.len() > 0 ==> exists|i: int|
                {
                    &&& 0 <= i < g.sources.len()
                    &&& (#[trigger] g.sources[i]).entries[0].0 != g.key
                    &&& forall|j: int| #![trigger g.sources[j]]
                        0 <= j < g.sources.len() ==> key_le(
                            g.sources[i].entries[0].0,
                            g.sources[j].entries[0].0,
                        )
                }
        }),
{
    let n = sources.len() as int;
    let i = least(sources, n);
    least_is_least(sources, n);
    let (head, val) = sources[i].entries[0];
    assert(sources[i].entries[0].0.len() > 0);
    let rest = taken(sources, i);
    taken_progress(sources, i);
    assert forall|a: int| #![trigger rest[a]] 0 <= a < rest.len() implies rest[a].end is End by {
        if sources[i].entries.drop_first().len() > 0 {
            if a != i {
                assert(rest[a] == sources[a]);
            }
        } else {
            assert(rest[a] == sources[if a < i { a } else { a + 1 }]);
        }
    }
    let first = Seq::<Seq<u8>>::empty().push(val);
    gather_on(rest, head, first, true);
    let g = gathered(sources);
    assert(g == gather(rest, head, first, true));
    assert(g.vals.take(first.len() as int)[0] == first[0]);
    assert forall|j: int| #![trigger sources[j]] 0 <= j < sources.len() implies key_le(
        g.key,
        sources[j].entries[0].0,
    ) by {
        assert(key_le(head_key(sources[i]), head_key(sources[j])));
    }
    assert forall|k: Seq<u8>| k != g.key implies #[trigger] values_at(g.sources, k) == values_at(
        sources,
        k,
    ) by {
        taken_keeps_others(sources, i, k);
        assert(values_at(g.sources, k) == values_at(rest, k));
    }
}

/// How many entries sources have is how many there are when they stand one after the
/// other.
pub proof fn entry_count_flattened(sources: Seq<Stream>)
    ensures
        entry_count(sources) == sources.map_values(|source: Stream| source.entries).flatten().len(),
    decreases sources.len(),
{
    let f = |source: Stream| source.entries;
    if sources.len() > 0 {
        entry_count_flattened(sources.drop_last());
        assert(sources.map_values(f) =~= sources.drop_last().map_values(f).push(
            sources.last().entries,
        ));
        sources.drop_last().map_values(f).lemma_flatten_push(sources.last().entries);
    }
}

} // verus!
