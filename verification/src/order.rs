//! The lexicographic order on byte strings, by which entries are sorted.

use vstd::prelude::*;

verus! {

/// Whether `a` comes before `b`, or is `b`, in lexicographic order.
pub open spec fn key_le(a: Seq<u8>, b: Seq<u8>) -> bool
    decreases a.len(),
{
    if a.len() == 0 {
        true
    } else if b.len() == 0 {
        false
    } else if a[0] != b[0] {
        a[0] < b[0]
    } else {
        key_le(a.skip(1), b.skip(1))
    }
}

/// Whether `a` comes strictly before `b` in lexicographic order.
pub open spec fn key_lt(a: Seq<u8>, b: Seq<u8>) -> bool {
    key_le(a, b) && a != b
}

/// How one key stands to another.
#[derive(Debug, Clone, Copy, PartialEq, Eq, Structural)]
pub enum KeyOrder {
    Less,
    Equal,
    Greater,
}

/// Every key is at most itself.
pub proof fn key_le_reflexive(a: Seq<u8>)
    ensures
        key_le(a, a),
    decreases a.len(),
{
    if a.len() > 0 {
        key_le_reflexive(a.skip(1));
    }
}

/// Two keys that are at most each other are the same key.
pub proof fn key_le_antisymmetric(a: Seq<u8>, b: Seq<u8>)
    requires
        key_le(a, b),
        key_le(b, a),
    ensures
        a == b,
    decreases a.len(),
{
    if a.len() > 0 && b.len() > 0 {
        key_le_antisymmetric(a.skip(1), b.skip(1));
        assert(a =~= seq![a[0]] + a.skip(1));
        assert(b =~= seq![b[0]] + b.skip(1));
    } else {
        assert(a =~= b);
    }
}

/// The order of keys is transitive.
pub proof fn key_le_transitive(a: Seq<u8>, b: Seq<u8>, c: Seq<u8>)
    requires
        key_le(a, b),
        key_le(b, c),
    ensures
        key_le(a, c),
    decreases a.len(),
{
    if a.len() > 0 && a[0] == b[0] && b[0] == c[0] {
        key_le_transitive(a.skip(1), b.skip(1), c.skip(1));
    }
}

/// Of two keys, one is at most the other.
pub proof fn key_le_total(a: Seq<u8>, b: Seq<u8>)
    ensures
        key_le(a, b) || key_le(b, a),
    decreases a.len(),
{
    if a.len() > 0 && b.len() > 0 && a[0] == b[0] {
        key_le_total(a.skip(1), b.skip(1));
    }
}

/// A key before another that is at most a third comes before the third.
pub proof fn key_lt_le_transitive(a: Seq<u8>, b: Seq<u8>, c: Seq<u8>)
    requires
        key_lt(a, b),
        key_le(b, c),
    ensures
        key_lt(a, c),
{
    key_le_transitive(a, b, c);
    if a == c {
        key_le_antisymmetric(a, b);
    }
}

/// Of two keys that differ at a byte and not before it, the one with the smaller byte
/// there comes first.
pub proof fn first_difference_decides(a: Seq<u8>, b: Seq<u8>, i: int)
    requires
        0 <= i < a.len(),
        i < b.len(),
        forall|j: int| 0 <= j < i ==> a[j] == b[j],
        a[i] != b[i],
    ensures
        key_lt(a, b) <==> a[i] < b[i],
        key_le(a, b) <==> a[i] < b[i],
        key_lt(b, a) <==> b[i] < a[i],
    decreases i,
{
    if i > 0 {
        assert(a[0] == b[0]);
        let (x, y) = (a.skip(1), b.skip(1));
        assert forall|j: int| 0 <= j < i - 1 implies x[j] == y[j] by {
            assert(a[j + 1] == b[j + 1]);
        }
        assert(x[i - 1] == a[i] && y[i - 1] == b[i]);
        first_difference_decides(x, y, i - 1);
    }
}

/// A key comes before every longer one that begins with it.
pub proof fn prefix_comes_first(a: Seq<u8>, b: Seq<u8>)
    requires
        a.len() < b.len(),
        forall|j: int| 0 <= j < a.len() ==> a[j] == b[j],
    ensures
        key_lt(a, b),
        !key_le(b, a),
    decreases a.len(),
{
    if a.len() > 0 {
        assert(a[0] == b[0]);
        let (x, y) = (a.skip(1), b.skip(1));
        assert forall|j: int| 0 <= j < x.len() implies x[j] == y[j] by {
            assert(a[j + 1] == b[j + 1]);
        }
        prefix_comes_first(x, y);
    }
}

/// Compares two keys lexicographically.
pub fn compare_keys(a: &[u8], b: &[u8]) -> (r: KeyOrder)
    ensures
        r is Less <==> key_lt(a@, b@),
        r is Equal <==> a@ == b@,
        r is Greater <==> key_lt(b@, a@),
{
    let mut i: usize = 0;
    assert(a@.skip(0) =~= a@);
    assert(b@.skip(0) =~= b@);
    while i < a.len() && i < b.len() && a[i] == b[i]
        invariant
            i <= a@.len(),
            i <= b@.len(),
            a@.take(i as int) == b@.take(i as int),
            key_le(a@, b@) == key_le(a@.skip(i as int), b@.skip(i as int)),
            key_le(b@, a@) == key_le(b@.skip(i as int), a@.skip(i as int)),
        decreases a@.len() - i,
    {
        assert(a@.skip(i as int).skip(1) =~= a@.skip(i + 1));
        assert(b@.skip(i as int).skip(1) =~= b@.skip(i + 1));
        assert(a@.take(i + 1) =~= a@.take(i as int).push(a@[i as int]));
        assert(b@.take(i + 1) =~= b@.take(i as int).push(b@[i as int]));
        i = i + 1;
    }
    proof {
        if i < a@.len() && i < b@.len() {
            assert(a@[i as int] != b@[i as int]);
        }
        if a@ == b@ {
            key_le_reflexive(a@);
        }
    }
    if i == a.len() {
        if i == b.len() {
            assert(a@ =~= a@.take(i as int));
            assert(b@ =~= b@.take(i as int));
            KeyOrder::Equal
        } else {
            KeyOrder::Less
        }
    } else if i == b.len() {
        KeyOrder::Greater
    } else if a[i] < b[i] {
        KeyOrder::Less
    } else {
        KeyOrder::Greater
    }
}

/// Whether two byte strings are the same.
pub fn same_bytes(a: &[u8], b: &[u8]) -> (r: bool)
    ensures
        r == (a@ == b@),
{
    match compare_keys(a, b) {
        KeyOrder::Equal => true,
        _ => false,
    }
}

} // verus!
