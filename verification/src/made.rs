//! What values are made of by merging them in one step or more, and which entries
//! runs stand for.

use crate::format::{KeyVal, Stream};
use crate::merge::{
    after_rounds, gathered, merges_into, merges_to, opened_sources, round_yields, rounds_yield,
};
use crate::runs::{
    after_rounds_proper, gather_sorted, merge_of_sorted, merged_key, merged_run, only_empty_key,
    proper, rounds_no_empty_key, rounds_sorted, rounds_values, same_values, sorted,
    sorted_same_values, vals_of, vals_of_absent, vals_of_add, vals_of_present, values_at,
    values_at_push,
};
use crate::seqs::{concat, concat_front, concat_of_concats, concat_one, concat_push};
use std::borrow::Cow;
use vstd::prelude::*;

verus! {

/// Whether a property of values and what is made of them is kept by merging: it
/// holds of what the merge function makes wherever it holds of all that it is given,
/// but for the values that are given as they were.
pub open spec fn kept_by_merging<MF, U>(
    merge: MF,
    key: Seq<u8>,
    property: spec_fn(Seq<Seq<u8>>, Seq<u8>) -> bool,
) -> bool where MF: for <'a>Fn(&[u8], &[Cow<'a, [u8]>]) -> Result<Cow<'a, [u8]>, U> {
    forall|parts: Seq<Seq<Seq<u8>>>, vals: Seq<Seq<u8>>, out: Seq<u8>|
        #![trigger concat(parts), merges_to(merge, key, vals, Ok::<_, U>(out))]
        {
            &&& parts.len() == vals.len()
            &&& vals.len() > 0
            &&& forall|i: int| #![trigger parts[i]]
                0 <= i < parts.len() ==> parts[i] == seq![vals[i]] || property(parts[i], vals[i])
            &&& merges_to(merge, key, vals, Ok::<_, U>(out))
        } ==> property(concat(parts), out)
}

/// Whether a value was made of values by merging, in one step or more: it has every
/// property of them that merging keeps.
pub open spec fn made_of<MF, U>(
    merge: MF,
    key: Seq<u8>,
    vals: Seq<Seq<u8>>,
    out: Seq<u8>,
) -> bool where MF: for <'a>Fn(&[u8], &[Cow<'a, [u8]>]) -> Result<Cow<'a, [u8]>, U> {
    forall|property: spec_fn(Seq<Seq<u8>>, Seq<u8>) -> bool| #[trigger]
        kept_by_merging(merge, key, property) ==> property(vals, out)
}

/// Whether entries have a key that is not empty.
pub open spec fn has_other_key(entries: Seq<KeyVal>) -> bool {
    exists|i: int| 0 <= i < entries.len() && (#[trigger] entries[i]).0.len() > 0
}

/// Whether a run of entries stands for entries that were inserted: it is sorted, it
/// has their keys, each once, and the value of each was made by merging of all the
/// values that were inserted with it, in the order in which they were. The empty
/// key is the exception: it may be lost to other keys, and of its values the first
/// may be lost to later ones.
pub open spec fn stands_for<MF, U>(
    merge: MF,
    run: Seq<KeyVal>,
    inserted: Seq<KeyVal>,
) -> bool where MF: for <'a>Fn(&[u8], &[Cow<'a, [u8]>]) -> Result<Cow<'a, [u8]>, U> {
    &&& sorted(run)
    &&& forall|k: Seq<u8>|
        k.len() > 0 ==> #[trigger] key_stands_for(merge, k, vals_of(run, k), vals_of(inserted, k))
    &&& empty_key_stands_for(
        merge,
        vals_of(run, Seq::empty()),
        vals_of(inserted, Seq::empty()),
        has_other_key(inserted),
    )
}

/// Whether a run of entries is all that was inserted, sorted and merged: it stands
/// for what was inserted, and the empty key is in it only where it is alone.
pub open spec fn sorts_out<MF, U>(
    merge: MF,
    run: Seq<KeyVal>,
    inserted: Seq<KeyVal>,
) -> bool where MF: for <'a>Fn(&[u8], &[Cow<'a, [u8]>]) -> Result<Cow<'a, [u8]>, U> {
    &&& stands_for(merge, run, inserted)
    &&& has_other_key(inserted) ==> vals_of(run, Seq::empty()).len() == 0
}

/// Whether what a run holds of the empty key stands for the values that were
/// inserted with it, with other keys or without.
pub open spec fn empty_key_stands_for<MF, U>(
    merge: MF,
    out: Seq<Seq<u8>>,
    vals: Seq<Seq<u8>>,
    others: bool,
) -> bool where MF: for <'a>Fn(&[u8], &[Cow<'a, [u8]>]) -> Result<Cow<'a, [u8]>, U> {
    if vals.len() == 0 {
        out.len() == 0
    } else if out.len() == 0 {
        others
    } else {
        &&& out.len() == 1
        &&& exists|j: int|
            0 <= j < vals.len() && #[trigger] made_of(merge, Seq::empty(), vals.skip(j), out[0])
    }
}

/// Whether what a run holds of a key stands for the values that were inserted with
/// it.
pub open spec fn key_stands_for<MF, U>(
    merge: MF,
    key: Seq<u8>,
    out: Seq<Seq<u8>>,
    vals: Seq<Seq<u8>>,
) -> bool where MF: for <'a>Fn(&[u8], &[Cow<'a, [u8]>]) -> Result<Cow<'a, [u8]>, U> {
    if vals.len() == 0 {
        out.len() == 0
    } else {
        out.len() == 1 && made_of(merge, key, vals, out[0])
    }
}

/// A value is made of at least one value.
pub proof fn made_of_something<MF, U>(
    merge: MF,
    key: Seq<u8>,
    vals: Seq<Seq<u8>>,
    out: Seq<u8>,
) where MF: for <'a>Fn(&[u8], &[Cow<'a, [u8]>]) -> Result<Cow<'a, [u8]>, U>
    requires
        made_of(merge, key, vals, out),
    ensures
        vals.len() > 0,
{
    let property = |vals: Seq<Seq<u8>>, out: Seq<u8>| vals.len() > 0;
    assert(kept_by_merging(merge, key, property)) by {
        assert forall|parts: Seq<Seq<Seq<u8>>>, vals: Seq<Seq<u8>>, out: Seq<u8>|
            #![trigger concat(parts), merges_to(merge, key, vals, Ok::<_, U>(out))]
            {
                &&& parts.len() == vals.len()
                &&& vals.len() > 0
                &&& forall|i: int| #![trigger parts[i]]
                    0 <= i < parts.len() ==> parts[i] == seq![vals[i]] || property(
                        parts[i],
                        vals[i],
                    )
                &&& merges_to(merge, key, vals, Ok::<_, U>(out))
            } implies property(concat(parts), out) by {
            assert(parts[0].len() > 0);
            concat_front(parts);
        }
    }
    assert(property(vals, out));
}

/// What one call of the merge function makes of values was made of them.
pub proof fn made_at_once<MF, U>(
    merge: MF,
    key: Seq<u8>,
    vals: Seq<Seq<u8>>,
    out: Seq<u8>,
) where MF: for <'a>Fn(&[u8], &[Cow<'a, [u8]>]) -> Result<Cow<'a, [u8]>, U>
    requires
        vals.len() > 0,
        merges_to(merge, key, vals, Ok::<_, U>(out)),
    ensures
        made_of(merge, key, vals, out),
{
    assert forall|property: spec_fn(Seq<Seq<u8>>, Seq<u8>) -> bool| #[trigger]
        kept_by_merging(merge, key, property) implies property(vals, out) by {
        let parts = vals.map_values(|val: Seq<u8>| seq![val]);
        concat_of_singles(vals);
        assert(property(concat(parts), out));
    }
}

/// What the merge function makes of one value was made of what that was made of.
proof fn made_again<MF, U>(
    merge: MF,
    key: Seq<u8>,
    vals: Seq<Seq<u8>>,
    val: Seq<u8>,
    out: Seq<u8>,
) where MF: for <'a>Fn(&[u8], &[Cow<'a, [u8]>]) -> Result<Cow<'a, [u8]>, U>
    requires
        made_of(merge, key, vals, val),
        merges_to(merge, key, seq![val], Ok::<_, U>(out)),
    ensures
        made_of(merge, key, vals, out),
{
    assert forall|property: spec_fn(Seq<Seq<u8>>, Seq<u8>) -> bool| #[trigger]
        kept_by_merging(merge, key, property) implies property(vals, out) by {
        let parts = seq![vals];
        concat_one(vals);
        assert(property(parts[0], seq![val][0]));
        assert(property(concat(parts), out));
    }
}

proof fn concat_of_singles(vals: Seq<Seq<u8>>)
    ensures
        concat(vals.map_values(|val: Seq<u8>| seq![val])) == vals,
    decreases vals.len(),
{
    let f = |val: Seq<u8>| seq![val];
    if vals.len() == 0 {
        assert(concat(vals.map_values(f)) =~= vals);
    } else {
        concat_of_singles(vals.drop_last());
        assert(vals.map_values(f).drop_last() =~= vals.drop_last().map_values(f));
        assert(concat(vals.map_values(f)) =~= vals);
    }
}

/// Whether each of the sources stands for its share of the entries inserted.
pub open spec fn all_stand_for<MF, U>(
    merge: MF,
    sources: Seq<Stream>,
    shares: Seq<Seq<KeyVal>>,
) -> bool where MF: for <'a>Fn(&[u8], &[Cow<'a, [u8]>]) -> Result<Cow<'a, [u8]>, U> {
    &&& sources.len() == shares.len()
    &&& forall|i: int| #![trigger sources[i]]
        0 <= i < sources.len() ==> stands_for(merge, sources[i].entries, shares[i])
}

/// The values of a key in the sources have every property of the values inserted
/// that merging keeps.
proof fn shares_have<MF, U>(
    merge: MF,
    key: Seq<u8>,
    sources: Seq<Stream>,
    shares: Seq<Seq<KeyVal>>,
    property: spec_fn(Seq<Seq<u8>>, Seq<u8>) -> bool,
) -> (parts: Seq<Seq<Seq<u8>>>) where
    MF: for <'a>Fn(&[u8], &[Cow<'a, [u8]>]) -> Result<Cow<'a, [u8]>, U>,

    requires
        key.len() > 0,
        all_stand_for(merge, sources, shares),
        kept_by_merging(merge, key, property),
    ensures
        parts.len() == values_at(sources, key).len(),
        forall|i: int| 0 <= i < parts.len() ==> #[trigger] property(
            parts[i],
            values_at(sources, key)[i],
        ),
        concat(parts) == vals_of(concat(shares), key),
        parts.len() == 0 <==> vals_of(concat(shares), key).len() == 0,
    decreases sources.len(),
{
    if sources.len() == 0 {
        assert(values_at(sources, key) =~= Seq::empty());
        assert(concat(shares) =~= Seq::empty());
        let parts = Seq::<Seq<Seq<u8>>>::empty();
        assert(concat(parts) =~= vals_of(concat(shares), key));
        parts
    } else {
        let n = sources.len() - 1;
        assert(sources.drop_last().push(sources.last()) =~= sources);
        values_at_push(sources.drop_last(), sources.last(), key);
        vals_of_add(concat(shares.drop_last()), shares.last(), key);
        assert forall|i: int| #![trigger sources.drop_last()[i]]
            0 <= i < n implies stands_for(
            merge,
            sources.drop_last()[i].entries,
            shares.drop_last()[i],
        ) by {
            assert(sources.drop_last()[i] == sources[i]);
        }
        let before = shares_have(merge, key, sources.drop_last(), shares.drop_last(), property);
        assert(stands_for(merge, sources[n].entries, shares[n]));
        let out = vals_of(sources[n].entries, key);
        let vals = vals_of(shares[n], key);
        assert(key_stands_for(merge, key, out, vals));
        if vals.len() == 0 {
            assert(values_at(sources, key) =~= values_at(sources.drop_last(), key));
            assert(vals_of(concat(shares), key) =~= vals_of(concat(shares.drop_last()), key));
            before
        } else {
            assert(property(vals, out[0]));
            let parts = before.push(vals);
            concat_push(before, vals);
            assert(values_at(sources, key) =~= values_at(sources.drop_last(), key).push(out[0]));
            assert forall|i: int| 0 <= i < parts.len() implies #[trigger] property(
                parts[i],
                values_at(sources, key)[i],
            ) by {
                if i < before.len() {
                    assert(property(before[i], values_at(sources.drop_last(), key)[i]));
                }
            }
            parts
        }
    }
}

/// Where only the empty key was inserted, the last of its values in the sources was
/// made of the last of those that were inserted.
proof fn empty_values<MF, U>(
    merge: MF,
    sources: Seq<Stream>,
    shares: Seq<Seq<KeyVal>>,
) where MF: for <'a>Fn(&[u8], &[Cow<'a, [u8]>]) -> Result<Cow<'a, [u8]>, U>
    requires
        all_stand_for(merge, sources, shares),
        !has_other_key(concat(shares)),
    ensures
        ({
            let vals = vals_of(concat(shares), Seq::empty());
            let held = values_at(sources, Seq::empty());
            if vals.len() == 0 {
                held.len() == 0
            } else {
                &&& held.len() > 0
                &&& exists|j: int|
                    0 <= j < vals.len() && #[trigger] made_of(
                        merge,
                        Seq::empty(),
                        vals.skip(j),
                        held.last(),
                    )
            }
        }),
    decreases sources.len(),
{
    let empty = Seq::<u8>::empty();
    if sources.len() == 0 {
        assert(values_at(sources, empty) =~= Seq::empty());
        assert(concat(shares) =~= Seq::empty());
    } else {
        let n = sources.len() - 1;
        let before = concat(shares.drop_last());
        let last = shares.last();
        let all = concat(shares);
        assert(all == before + last);
        assert(sources.drop_last().push(sources.last()) =~= sources);
        values_at_push(sources.drop_last(), sources.last(), empty);
        vals_of_add(before, last, empty);
        assert forall|i: int| 0 <= i < before.len() implies (#[trigger] before[i]).0.len() == 0 by {
            assert(all[i] == before[i]);
        }
        assert forall|i: int| 0 <= i < last.len() implies (#[trigger] last[i]).0.len() == 0 by {
            assert(all[before.len() + i] == last[i]);
        }
        assert forall|i: int| #![trigger sources.drop_last()[i]]
            0 <= i < n implies stands_for(
            merge,
            sources.drop_last()[i].entries,
            shares.drop_last()[i],
        ) by {
            assert(sources.drop_last()[i] == sources[i]);
        }
        empty_values(merge, sources.drop_last(), shares.drop_last());
        assert(stands_for(merge, sources[n].entries, shares[n]));
        let out = vals_of(sources[n].entries, empty);
        let vals = vals_of(last, empty);
        if vals.len() == 0 {
            assert(values_at(sources, empty) =~= values_at(sources.drop_last(), empty));
            assert(vals_of(all, empty) =~= vals_of(before, empty));
        } else {
            let j = choose|j: int|
                0 <= j < vals.len() && #[trigger] made_of(merge, empty, vals.skip(j), out[0]);
            assert(values_at(sources, empty).last() == out[0]);
            let skipped = vals_of(before, empty).len() + j;
            assert(vals_of(all, empty).skip(skipped) =~= vals.skip(j));
            assert(made_of(merge, empty, vals_of(all, empty).skip(skipped), out[0]));
        }
    }
}

/// Merging runs that stand for entries inserted yields all of those entries, sorted
/// and merged, the share of one run after that of the other.
pub proof fn merge_stands_for<MF, U>(
    merge: MF,
    sources: Seq<Stream>,
    shares: Seq<Seq<KeyVal>>,
    out: Seq<KeyVal>,
) where MF: for <'a>Fn(&[u8], &[Cow<'a, [u8]>]) -> Result<Cow<'a, [u8]>, U>
    requires
        all_stand_for(merge, sources, shares),
        merged_run(merge, sources, out),
    ensures
        sorts_out(merge, out, concat(shares)),
{
    assert forall|k: Seq<u8>| k.len() > 0 implies #[trigger] key_stands_for(
        merge,
        k,
        vals_of(out, k),
        vals_of(concat(shares), k),
    ) by {
        assert(merged_key(merge, k, values_at(sources, k), vals_of(out, k)));
        let whatever = |vals: Seq<Seq<u8>>, out: Seq<u8>| true;
        assert(kept_by_merging(merge, k, whatever));
        let parts = shares_have(merge, k, sources, shares, whatever);
        let vals = vals_of(concat(shares), k);
        if vals.len() > 0 {
            assert forall|property: spec_fn(Seq<Seq<u8>>, Seq<u8>) -> bool| #[trigger]
                kept_by_merging(merge, k, property) implies property(vals, vals_of(out, k)[0]) by {
                let parts = shares_have(merge, k, sources, shares, property);
                assert(property(concat(parts), vals_of(out, k)[0]));
            }
        }
    }
    let all = concat(shares);
    let empty = Seq::<u8>::empty();
    if has_other_key(all) {
        let i = choose|i: int| 0 <= i < all.len() && (#[trigger] all[i]).0.len() > 0;
        let k = all[i].0;
        vals_of_present(all, i);
        assert(key_stands_for(merge, k, vals_of(out, k), vals_of(all, k)));
        assert(merged_key(merge, k, values_at(sources, k), vals_of(out, k)));
        assert(values_at(sources, k).len() > 0);
    } else {
        assert forall|k: Seq<u8>| k.len() > 0 implies #[trigger] values_at(sources, k).len()
            == 0 by {
            vals_of_absent(all, k);
            assert(key_stands_for(merge, k, vals_of(out, k), vals_of(all, k)));
            assert(merged_key(merge, k, values_at(sources, k), vals_of(out, k)));
        }
        assert(only_empty_key(sources));
        empty_values(merge, sources, shares);
        if vals_of(all, empty).len() > 0 {
            let val = values_at(sources, empty).last();
            let j = choose|j: int|
                0 <= j < vals_of(all, empty).len() && #[trigger] made_of(
                    merge,
                    empty,
                    vals_of(all, empty).skip(j),
                    val,
                );
            made_again(merge, empty, vals_of(all, empty).skip(j), val, vals_of(out, empty)[0]);
        }
    }
}

/// Whether all that a merge function makes of values is those values one after the
/// other.
pub open spec fn concatenates<MF, U>(merge: MF) -> bool where
    MF: for <'a>Fn(&[u8], &[Cow<'a, [u8]>]) -> Result<Cow<'a, [u8]>, U>,
 {
    forall|key: Seq<u8>, vals: Seq<Seq<u8>>, out: Seq<u8>| #[trigger]
        merges_to(merge, key, vals, Ok::<_, U>(out)) ==> out == concat(vals)
}

/// Whether a merge function makes of values what a function says, and that is the same
/// where parts of the values are merged first.
pub open spec fn merges_merged_parts<MF, U>(
    merge: MF,
    f: spec_fn(Seq<u8>, Seq<Seq<u8>>) -> Seq<u8>,
) -> bool where MF: for <'a>Fn(&[u8], &[Cow<'a, [u8]>]) -> Result<Cow<'a, [u8]>, U> {
    &&& forall|key: Seq<u8>, vals: Seq<Seq<u8>>, out: Seq<u8>| #[trigger]
        merges_to(merge, key, vals, Ok::<_, U>(out)) ==> out == f(key, vals)
    &&& forall|key: Seq<u8>, parts: Seq<Seq<Seq<u8>>>, vals: Seq<Seq<u8>>|
        #![trigger concat(parts), f(key, vals)]
        {
            &&& parts.len() == vals.len()
            &&& vals.len() > 0
            &&& forall|i: int| #![trigger parts[i]]
                0 <= i < parts.len() ==> parts[i] == seq![vals[i]] || vals[i] == f(key, parts[i])
        } ==> f(key, vals) == f(key, concat(parts))
}

/// What such a merge function makes of values, in however many steps, is what it makes
/// of them in one.
pub proof fn made_in_one_step<MF, U>(
    merge: MF,
    f: spec_fn(Seq<u8>, Seq<Seq<u8>>) -> Seq<u8>,
    key: Seq<u8>,
    vals: Seq<Seq<u8>>,
    out: Seq<u8>,
) where MF: for <'a>Fn(&[u8], &[Cow<'a, [u8]>]) -> Result<Cow<'a, [u8]>, U>
    requires
        merges_merged_parts(merge, f),
        made_of(merge, key, vals, out),
    ensures
        out == f(key, vals),
{
    let property = |vals: Seq<Seq<u8>>, out: Seq<u8>| out == f(key, vals);
    assert(kept_by_merging(merge, key, property)) by {
        assert forall|parts: Seq<Seq<Seq<u8>>>, vals: Seq<Seq<u8>>, out: Seq<u8>|
            #![trigger concat(parts), merges_to(merge, key, vals, Ok::<_, U>(out))]
            {
                &&& parts.len() == vals.len()
                &&& vals.len() > 0
                &&& forall|i: int| #![trigger parts[i]]
                    0 <= i < parts.len() ==> parts[i] == seq![vals[i]] || property(
                        parts[i],
                        vals[i],
                    )
                &&& merges_to(merge, key, vals, Ok::<_, U>(out))
            } implies property(concat(parts), out) by {
            assert(out == f(key, vals));
            assert forall|i: int| #![trigger parts[i]] 0 <= i < parts.len() implies parts[i]
                == seq![vals[i]] || vals[i] == f(key, parts[i]) by {}
        }
    }
    assert(property(vals, out));
}

/// Where no key but the empty one was inserted, and that at most once, it is sorted
/// out like any other.
proof fn one_empty_key<MF, U>(
    merge: MF,
    f: spec_fn(Seq<u8>, Seq<Seq<u8>>) -> Seq<u8>,
    run: Seq<KeyVal>,
    inserted: Seq<KeyVal>,
) where MF: for <'a>Fn(&[u8], &[Cow<'a, [u8]>]) -> Result<Cow<'a, [u8]>, U>
    requires
        merges_merged_parts(merge, f),
        sorts_out(merge, run, inserted),
        !has_other_key(inserted),
        vals_of(inserted, Seq::empty()).len() <= 1,
    ensures
        ({
            let vals = vals_of(inserted, Seq::empty());
            vals_of(run, Seq::empty()) == if vals.len() == 0 {
                Seq::empty()
            } else {
                seq![f(Seq::empty(), vals)]
            }
        }),
{
    let vals = vals_of(inserted, Seq::empty());
    let out = vals_of(run, Seq::empty());
    if vals.len() > 0 {
        let j = choose|j: int|
            0 <= j < vals.len() && #[trigger] made_of(merge, Seq::empty(), vals.skip(j), out[0]);
        assert(vals.skip(j) =~= vals);
        made_in_one_step(merge, f, Seq::empty(), vals, out[0]);
    }
}

/// Where the merge function is such, what is sorted out does not depend on when entries
/// were dumped and chunks merged: it is the same for the same entries. Left out are
/// entries that have the empty key more than once and no other: how many of its values
/// are lost depends on the dumps.
pub proof fn dumps_do_not_matter<MF, U>(
    merge: MF,
    f: spec_fn(Seq<u8>, Seq<Seq<u8>>) -> Seq<u8>,
    a: Seq<KeyVal>,
    b: Seq<KeyVal>,
    inserted: Seq<KeyVal>,
) where MF: for <'a>Fn(&[u8], &[Cow<'a, [u8]>]) -> Result<Cow<'a, [u8]>, U>
    requires
        merges_merged_parts(merge, f),
        sorts_out(merge, a, inserted),
        sorts_out(merge, b, inserted),
        has_other_key(inserted) || vals_of(inserted, Seq::empty()).len() <= 1,
    ensures
        a == b,
        forall|key: Seq<u8>|
            key.len() > 0 && vals_of(inserted, key).len() > 0 ==> #[trigger] vals_of(a, key)
                == seq![f(key, vals_of(inserted, key))],
{
    assert forall|key: Seq<u8>| key.len() > 0 implies #[trigger] vals_of(a, key) == vals_of(b, key)
        && (vals_of(inserted, key).len() > 0 ==> vals_of(a, key) == seq![
        f(key, vals_of(inserted, key)),
    ]) by {
        let vals = vals_of(inserted, key);
        assert(key_stands_for(merge, key, vals_of(a, key), vals));
        assert(key_stands_for(merge, key, vals_of(b, key), vals));
        if vals.len() > 0 {
            made_in_one_step(merge, f, key, vals, vals_of(a, key)[0]);
            made_in_one_step(merge, f, key, vals, vals_of(b, key)[0]);
        }
        assert(vals_of(a, key) =~= vals_of(b, key));
    }
    assert forall|key: Seq<u8>| #![trigger vals_of(a, key)] vals_of(a, key) == vals_of(b, key) by {
        if key.len() == 0 {
            assert(key =~= Seq::empty());
            if !has_other_key(inserted) {
                one_empty_key(merge, f, a, inserted);
                one_empty_key(merge, f, b, inserted);
            }
            assert(vals_of(a, key) =~= vals_of(b, key));
        }
    }
    sorted_same_values(a, b);
}

/// Whether what a merge function makes of values does not depend on their order.
pub open spec fn ignores_order(f: spec_fn(Seq<u8>, Seq<Seq<u8>>) -> Seq<u8>) -> bool {
    forall|key: Seq<u8>, vals: Seq<Seq<u8>>, others: Seq<Seq<u8>>|
        #![trigger f(key, vals), f(key, others)]
        vals.to_multiset() == others.to_multiset() ==> f(key, vals) == f(key, others)
}

/// A value occurs among the values of a key as often as the entry of the two occurs.
pub proof fn vals_of_count(entries: Seq<KeyVal>, key: Seq<u8>, val: Seq<u8>)
    ensures
        vals_of(entries, key).to_multiset().count(val) == entries.to_multiset().count((key, val)),
    decreases entries.len(),
{
    broadcast use vstd::seq_lib::group_to_multiset_ensures;

    if entries.len() == 0 {
        assert(!entries.contains((key, val)));
        assert(!vals_of(entries, key).contains(val));
    } else {
        let (before, last) = (entries.drop_last(), entries.last());
        vals_of_count(before, key, val);
        assert(entries == before.push(last));
        if last.0 == key {
            assert(vals_of(entries, key) == vals_of(before, key).push(last.1));
            assert(last.1 == val <==> last == (key, val));
        }
    }
}

/// Entries that have the same values for every key are the same entries, in another order
/// or not.
pub proof fn same_values_reorder(a: Seq<KeyVal>, b: Seq<KeyVal>)
    requires
        same_values(a, b),
    ensures
        a.to_multiset() == b.to_multiset(),
        a.len() == b.len(),
{
    assert forall|entry: KeyVal| #[trigger]
        a.to_multiset().count(entry) == b.to_multiset().count(entry) by {
        vals_of_count(a, entry.0, entry.1);
        vals_of_count(b, entry.0, entry.1);
        assert(vals_of(a, entry.0) == vals_of(b, entry.0));
    }
    assert(a.to_multiset() =~= b.to_multiset());
    a.to_multiset_ensures();
    b.to_multiset_ensures();
}

/// The same entries in another order have the same values for a key, in another order.
proof fn vals_of_reordered(entries: Seq<KeyVal>, others: Seq<KeyVal>, key: Seq<u8>)
    requires
        entries.to_multiset() == others.to_multiset(),
    ensures
        vals_of(entries, key).to_multiset() == vals_of(others, key).to_multiset(),
        vals_of(entries, key).len() == vals_of(others, key).len(),
{
    let (a, b) = (vals_of(entries, key), vals_of(others, key));
    assert forall|val: Seq<u8>| #[trigger]
        a.to_multiset().count(val) == b.to_multiset().count(val) by {
        vals_of_count(entries, key, val);
        vals_of_count(others, key, val);
    }
    assert(a.to_multiset() =~= b.to_multiset());
    a.to_multiset_ensures();
    b.to_multiset_ensures();
}

/// Reordering entries makes and loses no key.
proof fn has_other_key_reordered(entries: Seq<KeyVal>, others: Seq<KeyVal>)
    requires
        entries.to_multiset() == others.to_multiset(),
        has_other_key(entries),
    ensures
        has_other_key(others),
{
    broadcast use vstd::seq_lib::group_to_multiset_ensures;

    let i = choose|i: int| 0 <= i < entries.len() && (#[trigger] entries[i]).0.len() > 0;
    assert(entries.contains(entries[i]));
    assert(others.to_multiset().count(entries[i]) > 0);
    let j = choose|j: int| 0 <= j < others.len() && others[j] == entries[i];
    assert(others[j].0.len() > 0);
}

/// Where the order of values does not matter to the merge function either, what is
/// sorted out does not depend on the order in which entries were inserted.
pub proof fn insertion_order_does_not_matter<MF, U>(
    merge: MF,
    f: spec_fn(Seq<u8>, Seq<Seq<u8>>) -> Seq<u8>,
    a: Seq<KeyVal>,
    b: Seq<KeyVal>,
    inserted: Seq<KeyVal>,
    reordered: Seq<KeyVal>,
) where MF: for <'a>Fn(&[u8], &[Cow<'a, [u8]>]) -> Result<Cow<'a, [u8]>, U>
    requires
        merges_merged_parts(merge, f),
        ignores_order(f),
        inserted.to_multiset() == reordered.to_multiset(),
        sorts_out(merge, a, inserted),
        sorts_out(merge, b, reordered),
        has_other_key(inserted) || vals_of(inserted, Seq::empty()).len() <= 1,
    ensures
        a == b,
{
    if has_other_key(inserted) {
        has_other_key_reordered(inserted, reordered);
    }
    if has_other_key(reordered) {
        has_other_key_reordered(reordered, inserted);
    }
    vals_of_reordered(inserted, reordered, Seq::empty());
    dumps_do_not_matter(merge, f, a, a, inserted);
    dumps_do_not_matter(merge, f, b, b, reordered);
    assert forall|key: Seq<u8>| #![trigger vals_of(a, key)] vals_of(a, key) == vals_of(b, key) by {
        let (vals, others) = (vals_of(inserted, key), vals_of(reordered, key));
        vals_of_reordered(inserted, reordered, key);
        assert(f(key, vals) == f(key, others));
        if key.len() == 0 {
            assert(key =~= Seq::empty());
            if !has_other_key(inserted) {
                one_empty_key(merge, f, a, inserted);
                one_empty_key(merge, f, b, reordered);
            }
            assert(vals_of(a, key) =~= vals_of(b, key));
        } else {
            assert(key_stands_for(merge, key, vals_of(a, key), vals));
            assert(key_stands_for(merge, key, vals_of(b, key), others));
            assert(vals_of(a, key) =~= vals_of(b, key));
        }
    }
    sorted_same_values(a, b);
}

/// What a merge function that concatenates makes of values, in however many steps,
/// is those values one after the other.
pub proof fn made_by_concatenating<MF, U>(
    merge: MF,
    key: Seq<u8>,
    vals: Seq<Seq<u8>>,
    out: Seq<u8>,
) where MF: for <'a>Fn(&[u8], &[Cow<'a, [u8]>]) -> Result<Cow<'a, [u8]>, U>
    requires
        concatenates(merge),
        made_of(merge, key, vals, out),
    ensures
        out == concat(vals),
{
    let f = |key: Seq<u8>, vals: Seq<Seq<u8>>| concat(vals);
    assert forall|key: Seq<u8>, parts: Seq<Seq<Seq<u8>>>, vals: Seq<Seq<u8>>|
        #![trigger concat(parts), f(key, vals)]
        {
            &&& parts.len() == vals.len()
            &&& vals.len() > 0
            &&& forall|i: int| #![trigger parts[i]]
                0 <= i < parts.len() ==> parts[i] == seq![vals[i]] || vals[i] == f(key, parts[i])
        } implies f(key, vals) == f(key, concat(parts)) by {
        concat_of_concats(parts);
        assert forall|i: int| 0 <= i < parts.len() implies vals[i] == concat(
            #[trigger] parts[i],
        ) by {
            concat_one(vals[i]);
        }
        assert(vals =~= parts.map_values(|part: Seq<Seq<u8>>| concat(part)));
    }
    made_in_one_step(merge, f, key, vals, out);
}

/// Where the merge function concatenates, a run that stands for entries inserted
/// holds of every key the values that were inserted with it, one after the other, in
/// the order in which they were, however often they were merged.
pub proof fn concatenated_values<MF, U>(
    merge: MF,
    run: Seq<KeyVal>,
    inserted: Seq<KeyVal>,
    key: Seq<u8>,
) where MF: for <'a>Fn(&[u8], &[Cow<'a, [u8]>]) -> Result<Cow<'a, [u8]>, U>
    requires
        concatenates(merge),
        stands_for(merge, run, inserted),
        key.len() > 0,
        vals_of(inserted, key).len() > 0,
    ensures
        vals_of(run, key) == seq![concat(vals_of(inserted, key))],
{
    assert(key_stands_for(merge, key, vals_of(run, key), vals_of(inserted, key)));
    made_by_concatenating(merge, key, vals_of(inserted, key), vals_of(run, key)[0]);
    assert(vals_of(run, key) =~= seq![concat(vals_of(inserted, key))]);
}

/// Whether values are a stretch of others.
pub open spec fn is_part(part: Seq<Seq<u8>>, whole: Seq<Seq<u8>>) -> bool {
    exists|i: int, j: int|
        0 <= i <= j <= whole.len() && part == #[trigger] whole.subrange(i, j)
}

/// Values are a stretch of themselves.
pub proof fn is_part_whole(whole: Seq<Seq<u8>>)
    ensures
        is_part(whole, whole),
{
    assert(whole.subrange(0, whole.len() as int) =~= whole);
}

/// A stretch of values is one of values around them.
pub proof fn is_part_of_more(
    part: Seq<Seq<u8>>,
    before: Seq<Seq<u8>>,
    whole: Seq<Seq<u8>>,
    after: Seq<Seq<u8>>,
)
    requires
        is_part(part, whole),
    ensures
        is_part(part, before + whole + after),
{
    let (i, j) = choose|i: int, j: int|
        0 <= i <= j <= whole.len() && part == #[trigger] whole.subrange(i, j);
    let n = before.len();
    assert((before + whole + after).subrange(n + i, n + j) =~= part);
}

/// Whether each value is the only one of its part, or was made of its part.
pub open spec fn parts_stand_for<MF, U>(
    merge: MF,
    key: Seq<u8>,
    parts: Seq<Seq<Seq<u8>>>,
    vals: Seq<Seq<u8>>,
) -> bool where MF: for <'a>Fn(&[u8], &[Cow<'a, [u8]>]) -> Result<Cow<'a, [u8]>, U> {
    &&& parts.len() == vals.len()
    &&& vals.len() > 0
    &&& forall|i: int| #![trigger parts[i]]
        0 <= i < parts.len() ==> parts[i] == seq![vals[i]] || made_of(
            merge,
            key,
            parts[i],
            vals[i],
        )
}

/// Whether values that the merge function is given come from a stretch of values
/// that were inserted: they are those, merged in parts or not at all.
pub open spec fn comes_from<MF, U>(
    merge: MF,
    key: Seq<u8>,
    vals: Seq<Seq<u8>>,
    inserted: Seq<Seq<u8>>,
) -> bool where MF: for <'a>Fn(&[u8], &[Cow<'a, [u8]>]) -> Result<Cow<'a, [u8]>, U> {
    exists|parts: Seq<Seq<Seq<u8>>>|
        {
            &&& #[trigger] parts_stand_for(merge, key, parts, vals)
            &&& is_part(concat(parts), inserted)
        }
}

/// Values that were inserted come from themselves.
pub proof fn comes_from_inserted<MF, U>(
    merge: MF,
    key: Seq<u8>,
    vals: Seq<Seq<u8>>,
    inserted: Seq<Seq<u8>>,
) where MF: for <'a>Fn(&[u8], &[Cow<'a, [u8]>]) -> Result<Cow<'a, [u8]>, U>
    requires
        vals.len() > 0,
        is_part(vals, inserted),
    ensures
        comes_from(merge, key, vals, inserted),
{
    let parts = vals.map_values(|val: Seq<u8>| seq![val]);
    concat_of_singles(vals);
    assert(parts_stand_for(merge, key, parts, vals));
}

/// What the merge function makes of parts was made of all of them.
pub proof fn made_of_parts<MF, U>(
    merge: MF,
    key: Seq<u8>,
    parts: Seq<Seq<Seq<u8>>>,
    vals: Seq<Seq<u8>>,
    out: Seq<u8>,
) where MF: for <'a>Fn(&[u8], &[Cow<'a, [u8]>]) -> Result<Cow<'a, [u8]>, U>
    requires
        parts_stand_for(merge, key, parts, vals),
        merges_to(merge, key, vals, Ok::<_, U>(out)),
    ensures
        made_of(merge, key, concat(parts), out),
{
    assert forall|property: spec_fn(Seq<Seq<u8>>, Seq<u8>) -> bool| #[trigger]
        kept_by_merging(merge, key, property) implies property(concat(parts), out) by {
        assert forall|i: int| #![trigger parts[i]] 0 <= i < parts.len() implies parts[i]
            == seq![vals[i]] || property(parts[i], vals[i]) by {}
    }
}

/// Whether what a merge has yielded so far is of what was inserted: it is sorted,
/// and each value was made of all the values that were inserted with its key. Of the
/// empty key it may be some of the values.
pub open spec fn begins_to_sort_out<MF, U>(
    merge: MF,
    out: Seq<KeyVal>,
    inserted: Seq<KeyVal>,
) -> bool where MF: for <'a>Fn(&[u8], &[Cow<'a, [u8]>]) -> Result<Cow<'a, [u8]>, U> {
    &&& sorted(out)
    &&& forall|j: int| #![trigger out[j]]
        0 <= j < out.len() ==> entry_stands_for(merge, out[j], inserted)
}

/// Whether the value of an entry was made of the values that were inserted with its
/// key, or of a stretch of them where the key is empty.
pub open spec fn entry_stands_for<MF, U>(
    merge: MF,
    entry: KeyVal,
    inserted: Seq<KeyVal>,
) -> bool where MF: for <'a>Fn(&[u8], &[Cow<'a, [u8]>]) -> Result<Cow<'a, [u8]>, U> {
    exists|part: Seq<Seq<u8>>|
        {
            &&& #[trigger] made_of(merge, entry.0, part, entry.1)
            &&& is_part(part, vals_of(inserted, entry.0))
            &&& entry.0.len() > 0 ==> part == vals_of(inserted, entry.0)
        }
}

/// Whether sources are sorted runs that stand, one after the other, for what was
/// inserted.
pub open spec fn runs_of<MF, U>(
    merge: MF,
    sources: Seq<Stream>,
    inserted: Seq<KeyVal>,
) -> bool where MF: for <'a>Fn(&[u8], &[Cow<'a, [u8]>]) -> Result<Cow<'a, [u8]>, U> {
    &&& proper(sources)
    &&& exists|shares: Seq<Seq<KeyVal>>| #[trigger]
        all_stand_for(merge, sources, shares) && concat(shares) == inserted
}

/// Merging runs that stand for what was inserted yields all of that, sorted and
/// merged.
pub proof fn merge_of_runs<MF, U>(
    merge: MF,
    sources: Seq<Stream>,
    inserted: Seq<KeyVal>,
    out: Seq<KeyVal>,
) where MF: for <'a>Fn(&[u8], &[Cow<'a, [u8]>]) -> Result<Cow<'a, [u8]>, U>
    requires
        runs_of(merge, sources, inserted),
        merges_into(merge, sources, out),
    ensures
        sorts_out(merge, out, inserted),
{
    let shares = choose|shares: Seq<Seq<KeyVal>>| #[trigger]
        all_stand_for(merge, sources, shares) && concat(shares) == inserted;
    merge_of_sorted(merge, sources, out);
    merge_stands_for(merge, sources, shares, out);
}

/// What a merge of runs gives to the merge function comes from what was inserted,
/// and is all of it where the key is not empty. Returns the parts.
proof fn round_comes_from<MF, U>(
    merge: MF,
    sources: Seq<Stream>,
    inserted: Seq<KeyVal>,
    n: nat,
) -> (parts: Seq<Seq<Seq<u8>>>) where
    MF: for <'a>Fn(&[u8], &[Cow<'a, [u8]>]) -> Result<Cow<'a, [u8]>, U>,

    requires
        runs_of(merge, sources, inserted),
        gathered(after_rounds(sources, n)).pending,
    ensures
        ({
            let g = gathered(after_rounds(sources, n));
            &&& g.failure is None
            &&& parts_stand_for(merge, g.key, parts, g.vals)
            &&& is_part(concat(parts), vals_of(inserted, g.key))
            &&& g.key.len() > 0 ==> concat(parts) == vals_of(inserted, g.key)
        }),
{
    let shares = choose|shares: Seq<Seq<KeyVal>>| #[trigger]
        all_stand_for(merge, sources, shares) && concat(shares) == inserted;
    let left = after_rounds(sources, n);
    let g = gathered(left);
    after_rounds_proper(sources, n);
    gather_sorted(left, Seq::empty(), false);
    is_part_whole(vals_of(inserted, g.key));
    if g.key.len() > 0 {
        rounds_values(sources, n, g.key);
        let property = |vals: Seq<Seq<u8>>, out: Seq<u8>| made_of(merge, g.key, vals, out);
        assert(kept_by_merging(merge, g.key, property)) by {
            assert forall|parts: Seq<Seq<Seq<u8>>>, vals: Seq<Seq<u8>>, out: Seq<u8>|
                #![trigger concat(parts), merges_to(merge, g.key, vals, Ok::<_, U>(out))]
                {
                    &&& parts.len() == vals.len()
                    &&& vals.len() > 0
                    &&& forall|i: int| #![trigger parts[i]]
                        0 <= i < parts.len() ==> parts[i] == seq![vals[i]] || property(
                            parts[i],
                            vals[i],
                        )
                    &&& merges_to(merge, g.key, vals, Ok::<_, U>(out))
                } implies property(concat(parts), out) by {
                assert forall|i: int| #![trigger parts[i]] 0 <= i < parts.len() implies parts[i]
                    == seq![vals[i]] || made_of(merge, g.key, parts[i], vals[i]) by {}
                made_of_parts(merge, g.key, parts, vals, out);
            }
        }
        let parts = shares_have(merge, g.key, sources, shares, property);
        assert forall|i: int| #![trigger parts[i]] 0 <= i < parts.len() implies made_of(
            merge,
            g.key,
            parts[i],
            g.vals[i],
        ) by {
            assert(property(parts[i], values_at(sources, g.key)[i]));
        }
        parts
    } else {
        let empty = Seq::<u8>::empty();
        assert(g.key =~= empty);
        if n > 0 {
            rounds_no_empty_key(sources, n);
        }
        assert(left == sources);
        assert(!has_other_key(inserted)) by {
            if has_other_key(inserted) {
                let i = choose|i: int|
                    0 <= i < inserted.len() && (#[trigger] inserted[i]).0.len() > 0;
                let k = inserted[i].0;
                vals_of_present(inserted, i);
                let whatever = |vals: Seq<Seq<u8>>, out: Seq<u8>| true;
                assert(kept_by_merging(merge, k, whatever));
                let parts = shares_have(merge, k, sources, shares, whatever);
                assert(values_at(sources, k).len() > 0);
            }
        }
        empty_values(merge, sources, shares);
        let vals = vals_of(inserted, empty);
        let j = choose|j: int|
            0 <= j < vals.len() && #[trigger] made_of(
                merge,
                empty,
                vals.skip(j),
                values_at(sources, empty).last(),
            );
        let part = vals.skip(j);
        assert(part =~= vals.subrange(j, vals.len() as int));
        concat_one(part);
        seq![part]
    }
}

/// What a merge of runs gives to the merge function in a round comes from what was
/// inserted.
pub proof fn round_of_runs<MF, U>(
    merge: MF,
    sources: Seq<Stream>,
    inserted: Seq<KeyVal>,
    n: nat,
) where MF: for <'a>Fn(&[u8], &[Cow<'a, [u8]>]) -> Result<Cow<'a, [u8]>, U>
    requires
        runs_of(merge, sources, inserted),
        gathered(after_rounds(sources, n)).pending,
    ensures
        ({
            let g = gathered(after_rounds(sources, n));
            &&& g.failure is None
            &&& comes_from(merge, g.key, g.vals, vals_of(inserted, g.key))
        }),
{
    let parts = round_comes_from(merge, sources, inserted, n);
}

/// What a merge of runs has yielded at any time is of what was inserted, sorted.
pub proof fn rounds_of_runs<MF, U>(
    merge: MF,
    sources: Seq<Stream>,
    inserted: Seq<KeyVal>,
    out: Seq<KeyVal>,
) where MF: for <'a>Fn(&[u8], &[Cow<'a, [u8]>]) -> Result<Cow<'a, [u8]>, U>
    requires
        runs_of(merge, sources, inserted),
        rounds_yield(merge, sources, out),
    ensures
        begins_to_sort_out(merge, out, inserted),
{
    rounds_sorted(merge, sources, out);
    assert forall|j: int| #![trigger out[j]] 0 <= j < out.len() implies entry_stands_for(
        merge,
        out[j],
        inserted,
    ) by {
        let g = gathered(after_rounds(sources, j as nat));
        assert(round_yields(merge, after_rounds(sources, j as nat), out[j]));
        let parts = round_comes_from(merge, sources, inserted, j as nat);
        made_of_parts(merge, g.key, parts, g.vals, out[j].1);
    }
}

/// Opening runs that stand for shares of what was inserted leaves out those without
/// entries, and the others stand for all of it.
pub proof fn opened_runs<MF, U>(
    merge: MF,
    streams: Seq<Stream>,
    shares: Seq<Seq<KeyVal>>,
) where MF: for <'a>Fn(&[u8], &[Cow<'a, [u8]>]) -> Result<Cow<'a, [u8]>, U>
    requires
        all_stand_for(merge, streams, shares),
        forall|i: int| #![trigger streams[i]] 0 <= i < streams.len() ==> streams[i].end is End,
    ensures
        opened_sources(streams) matches Ok(sources) && runs_of(merge, sources, concat(shares)),
    decreases streams.len(),
{
    if streams.len() == 0 {
        assert(all_stand_for(merge, streams, shares));
        assert(opened_sources(streams)->Ok_0 =~= streams);
    } else {
        let before = streams.drop_last();
        let n = streams.len() - 1;
        assert forall|i: int| #![trigger before[i]] 0 <= i < n implies stands_for(
            merge,
            before[i].entries,
            shares.drop_last()[i],
        ) && before[i].end is End by {
            assert(before[i] == streams[i]);
        }
        opened_runs(merge, before, shares.drop_last());
        let sources = opened_sources(before)->Ok_0;
        let held = choose|held: Seq<Seq<KeyVal>>| #[trigger]
            all_stand_for(merge, sources, held) && concat(held) == concat(shares.drop_last());
        assert(stands_for(merge, streams[n].entries, shares[n]));
        if streams.last().entries.len() > 0 {
            let all = sources.push(streams.last());
            let more = held.push(shares.last());
            concat_push(held, shares.last());
            assert forall|i: int| #![trigger all[i]] 0 <= i < all.len() implies stands_for(
                merge,
                all[i].entries,
                more[i],
            ) && all[i].entries.len() > 0 && sorted(all[i].entries) && all[i].end is End by {
                if i < sources.len() {
                    assert(all[i] == sources[i]);
                }
            }
            assert(all_stand_for(merge, all, more));
            assert(proper(all));
        } else {
            assert(shares.last() =~= Seq::empty()) by {
                if shares.last().len() > 0 {
                    nothing_stands_for_something(merge, streams[n].entries, shares[n]);
                }
            }
            assert(concat(shares) =~= concat(shares.drop_last()));
        }
    }
}

/// A run without entries stands for nothing but nothing.
proof fn nothing_stands_for_something<MF, U>(
    merge: MF,
    run: Seq<KeyVal>,
    share: Seq<KeyVal>,
) where MF: for <'a>Fn(&[u8], &[Cow<'a, [u8]>]) -> Result<Cow<'a, [u8]>, U>
    requires
        stands_for(merge, run, share),
        run.len() == 0,
    ensures
        share.len() == 0,
{
    if share.len() > 0 {
        assert forall|i: int| 0 <= i < share.len() implies (#[trigger] share[i]).0.len() == 0 by {
            let k = share[i].0;
            vals_of_present(share, i);
            if k.len() > 0 {
                assert(key_stands_for(merge, k, vals_of(run, k), vals_of(share, k)));
            }
        }
        assert(share[0].0 =~= Seq::empty());
        vals_of_present(share, 0);
    }
}

} // verus!
