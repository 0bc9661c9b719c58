//! Sequences of sequences, joined.

use vstd::prelude::*;

verus! {

/// The sequences one after the other.
pub open spec fn concat<A>(parts: Seq<Seq<A>>) -> Seq<A>
    decreases parts.len(),
{
    if parts.len() == 0 {
        Seq::empty()
    } else {
        concat(parts.drop_last()) + parts.last()
    }
}

/// One more sequence at the end lengthens the joined sequence by it.
pub proof fn concat_push<A>(parts: Seq<Seq<A>>, part: Seq<A>)
    ensures
        concat(parts.push(part)) == concat(parts) + part,
{
    assert(parts.push(part).drop_last() =~= parts);
}

/// Joining two lists of sequences joins what each of them joins to.
pub proof fn concat_add<A>(a: Seq<Seq<A>>, b: Seq<Seq<A>>)
    ensures
        concat(a + b) == concat(a) + concat(b),
    decreases b.len(),
{
    if b.len() == 0 {
        assert(a + b =~= a);
        assert(concat(a) + concat(b) =~= concat(a));
    } else {
        concat_add(a, b.drop_last());
        assert((a + b).drop_last() =~= a + b.drop_last());
        assert(concat(a + b) =~= concat(a) + concat(b));
    }
}

/// The joined sequence begins with the first of the sequences.
pub proof fn concat_front<A>(parts: Seq<Seq<A>>)
    requires
        parts.len() > 0,
    ensures
        concat(parts) == parts.first() + concat(parts.drop_first()),
{
    let first = seq![parts.first()];
    concat_add(first, parts.drop_first());
    assert(first + parts.drop_first() =~= parts);
    reveal_with_fuel(concat, 2);
    assert(first.drop_last() =~= Seq::empty());
    assert(concat(first) =~= parts.first());
}

/// Joining one sequence is that sequence.
pub proof fn concat_one<A>(part: Seq<A>)
    ensures
        concat(seq![part]) == part,
{
    concat_front(seq![part]);
    assert(seq![part].drop_first() =~= Seq::empty());
    assert(concat(seq![part]) =~= part);
}

/// Joining what lists of sequences join to is joining all of those sequences.
pub proof fn concat_of_concats<A>(parts: Seq<Seq<Seq<A>>>)
    ensures
        concat(parts.map_values(|part: Seq<Seq<A>>| concat(part))) == concat(concat(parts)),
    decreases parts.len(),
{
    let f = |part: Seq<Seq<A>>| concat(part);
    if parts.len() == 0 {
        assert(concat(parts.map_values(f)) =~= concat(concat(parts)));
    } else {
        concat_of_concats(parts.drop_last());
        concat_add(concat(parts.drop_last()), parts.last());
        assert(parts.map_values(f).drop_last() =~= parts.drop_last().map_values(f));
    }
}

/// Joining is flattening.
pub proof fn concat_flattens<A>(parts: Seq<Seq<A>>)
    ensures
        concat(parts) == parts.flatten(),
    decreases parts.len(),
{
    if parts.len() > 0 {
        concat_flattens(parts.drop_first());
        concat_front(parts);
    }
}

} // verus!
