//! Entries in one buffer of memory, and sorting them there.

use crate::endian::{
    bytes_to_word, le_bytes, le_round_trip, le_value, span_of_u32, word_to_bytes,
};
use crate::format::KeyVal;
use crate::order::{
    compare_keys, key_le, key_le_reflexive, key_le_total, key_le_transitive, key_lt,
    key_lt_le_transitive, KeyOrder,
};
use crate::runs::{ascending, same_values, vals_of, vals_of_absent, vals_of_add, vals_of_front};
use vstd::arithmetic::power2::{lemma2_to64, lemma_pow2_unfold, pow2};
use vstd::prelude::*;
use vstd::slice::slice_subrange;

verus! {

/// How many bytes a number of bounds takes up in the buffer: a bound is an address and
/// two lengths of 32 bits.
pub open spec fn slots(n: int) -> int {
    if usize::BITS == 32 {
        12 * n
    } else {
        16 * n
    }
}

/// How many bytes a bound takes up in the buffer.
pub open spec fn bound_size() -> nat {
    slots(1) as nat
}

/// Whether a size is a whole number of bounds.
pub open spec fn whole_bounds(size: nat) -> bool {
    if usize::BITS == 32 {
        size % 12 == 0
    } else {
        size % 16 == 0
    }
}

/// How many bytes a number of bounds takes up in the buffer.
fn slot_bytes(n: usize) -> (r: usize)
    requires
        slots(n as int) <= usize::MAX,
    ensures
        r == slots(n as int),
{
    if usize::BITS == 32 {
        n * 12
    } else {
        n * 16
    }
}

/// How many bounds fit into a size.
fn bounds_in(size: usize) -> (r: usize)
    ensures
        slots(r as int) <= size < slots(r + 1),
{
    if usize::BITS == 32 {
        size / 12
    } else {
        size / 16
    }
}

/// Where an entry is in the buffer: how far from the end of the buffer its key
/// begins, and how long its key and its data are. The data follows the key.
#[derive(Debug, Clone, Copy)]
pub struct EntryBound {
    pub key_start: usize,
    pub key_length: u32,
    pub data_length: u32,
}

impl EntryBound {
    /// The bytes of the bound in the buffer, as words of 32 bits, least significant
    /// first.
    spec fn bytes(self) -> Seq<u8> {
        self.start_bytes() + le_bytes(self.key_length as nat, 4) + le_bytes(
            self.data_length as nat,
            4,
        )
    }

    /// The bytes of where the key begins.
    spec fn start_bytes(self) -> Seq<u8> {
        let low = le_bytes((self.key_start as nat) % 0x1_0000_0000, 4);
        if usize::BITS == 32 {
            low
        } else {
            low + le_bytes((self.key_start as nat) / 0x1_0000_0000, 4)
        }
    }

    /// Whether the entry lies in the last `len` bytes.
    spec fn within(self, len: int) -> bool {
        self.key_start <= len && self.key_length + self.data_length <= self.key_start
    }

    proof fn bytes_len(self)
        ensures
            self.bytes().len() == bound_size(),
            self.start_bytes().len() == bound_size() - 8,
            le_bytes(self.key_length as nat, 4).len() == 4,
            le_bytes(self.data_length as nat, 4).len() == 4,
            le_bytes((self.key_start as nat) % 0x1_0000_0000, 4).len() == 4,
    {
        span_of_u32();
        le_round_trip((self.key_start as nat) % 0x1_0000_0000, 4);
        if usize::BITS != 32 {
            le_round_trip((self.key_start as nat) / 0x1_0000_0000, 4);
        }
        le_round_trip(self.key_length as nat, 4);
        le_round_trip(self.data_length as nat, 4);
    }

    /// The bytes of the bound in the buffer.
    fn to_bytes(self) -> (bytes: Vec<u8>)
        ensures
            bytes@ == self.bytes(),
    {
        let start: u64 = self.key_start as u64;
        let mut bytes: Vec<u8> = Vec::new();
        bytes.extend_from_slice(word_to_bytes((start % 0x1_0000_0000) as u32).as_slice());
        if usize::BITS != 32 {
            bytes.extend_from_slice(word_to_bytes((start / 0x1_0000_0000) as u32).as_slice());
        }
        assert(bytes@ =~= self.start_bytes());
        bytes.extend_from_slice(word_to_bytes(self.key_length).as_slice());
        bytes.extend_from_slice(word_to_bytes(self.data_length).as_slice());
        assert(bytes@ =~= self.bytes());
        bytes
    }

    /// The entry in a buffer.
    spec fn entry(self, buffer: Seq<u8>) -> KeyVal {
        let key = buffer.len() - self.key_start;
        let data = key + self.key_length;
        (buffer.subrange(key, data), buffer.subrange(data, data + self.data_length))
    }
}

/// By how much a size falls short.
pub open spec fn shortfall(size: nat, need: nat) -> nat {
    if size < need {
        (need - size) as nat
    } else {
        0
    }
}

/// The smallest size that is at least `need` and comes of doubling `size`.
pub open spec fn doubled(size: nat, need: nat) -> nat
    decreases shortfall(size, need),
    when size > 0
{
    if size >= need {
        size
    } else {
        doubled(size * 2, need)
    }
}

/// Doubling goes less than twice as far as it has to.
pub proof fn doubled_bounds(size: nat, need: nat)
    requires
        size > 0,
    ensures
        doubled(size, need) >= size,
        doubled(size, need) >= need,
        size >= need ==> doubled(size, need) == size,
        size < need ==> doubled(size, need) < 2 * need,
        whole_bounds(size) ==> whole_bounds(doubled(size, need)),
    decreases shortfall(size, need),
{
    if size < need {
        doubled_bounds(size * 2, need);
    }
}

/// A size rounded up to a whole number of bounds.
pub open spec fn rounded_up(size: nat) -> nat {
    if usize::BITS == 32 {
        (size + 11) / 12 * 12
    } else {
        (size + 15) / 16 * 16
    }
}

/// Bytes with others written over them at a position.
pub open spec fn overwritten(buffer: Seq<u8>, at: int, bytes: Seq<u8>) -> Seq<u8> {
    buffer.take(at) + bytes + buffer.skip(at + bytes.len())
}

proof fn overwritten_there(buffer: Seq<u8>, at: int, bytes: Seq<u8>)
    requires
        0 <= at,
        at + bytes.len() <= buffer.len(),
    ensures
        overwritten(buffer, at, bytes).len() == buffer.len(),
        overwritten(buffer, at, bytes).subrange(at, at + bytes.len()) == bytes,
{
    assert(overwritten(buffer, at, bytes).subrange(at, at + bytes.len()) =~= bytes);
}

proof fn overwritten_elsewhere(buffer: Seq<u8>, at: int, bytes: Seq<u8>, i: int, j: int)
    requires
        0 <= at,
        at + bytes.len() <= buffer.len(),
        0 <= i <= j <= buffer.len(),
        j <= at || at + bytes.len() <= i,
    ensures
        overwritten(buffer, at, bytes).subrange(i, j) == buffer.subrange(i, j),
{
    assert(overwritten(buffer, at, bytes).subrange(i, j) =~= buffer.subrange(i, j));
}

/// Where `n` bytes of two buffers are the same, so are any of those.
proof fn same_inside(a: Seq<u8>, i: int, b: Seq<u8>, j: int, n: int, x: int, y: int)
    requires
        0 <= i,
        0 <= j,
        i + n <= a.len(),
        j + n <= b.len(),
        a.subrange(i, i + n) == b.subrange(j, j + n),
        0 <= x <= y <= n,
    ensures
        a.subrange(i + x, i + y) == b.subrange(j + x, j + y),
{
    assert(a.subrange(i + x, i + y) =~= a.subrange(i, i + n).subrange(x, y));
    assert(b.subrange(j + x, j + y) =~= b.subrange(j, j + n).subrange(x, y));
}

/// Where the front and the back of two buffers are the same, so are a slot at the front
/// and an entry at the back.
proof fn bound_in_grown(
    a: Seq<u8>,
    b: Seq<u8>,
    front: int,
    back: int,
    i: int,
    bound: EntryBound,
)
    requires
        0 <= i,
        slots(i + 1) <= front,
        0 <= back,
        front + back <= a.len(),
        front + back <= b.len(),
        a.subrange(0, front) == b.subrange(0, front),
        a.subrange(a.len() - back, a.len() as int) == b.subrange(b.len() - back, b.len() as int),
        bound.within(back),
    ensures
        b.subrange(slots(i), slots(i + 1)) == a.subrange(slots(i), slots(i + 1)),
        bound.entry(b) == bound.entry(a),
{
    let x = back - bound.key_start;
    let y = x + bound.key_length;
    let z = y + bound.data_length;
    same_inside(a, 0, b, 0, front, slots(i), slots(i + 1));
    same_inside(a, a.len() - back, b, b.len() - back, back, x, y);
    same_inside(a, a.len() - back, b, b.len() - back, back, y, z);
}

/// Writes bytes over those at a position of a buffer.
fn overwrite(buffer: &mut Vec<u8>, at: usize, bytes: &[u8])
    requires
        at + bytes@.len() <= old(buffer)@.len(),
    ensures
        final(buffer)@ == overwritten(old(buffer)@, at as int, bytes@),
{
    let len = buffer.len();
    let mut i: usize = 0;
    assert(bytes@.take(0) =~= Seq::empty());
    assert(buffer@ =~= overwritten(old(buffer)@, at as int, bytes@.take(0)));
    while i < bytes.len()
        invariant
            i <= bytes@.len(),
            at + bytes@.len() <= len,
            len == old(buffer)@.len(),
            buffer@ == overwritten(old(buffer)@, at as int, bytes@.take(i as int)),
        decreases bytes@.len() - i,
    {
        buffer[at + i] = bytes[i];
        i = i + 1;
        assert(buffer@ =~= overwritten(old(buffer)@, at as int, bytes@.take(i as int)));
    }
    assert(bytes@.take(i as int) =~= bytes@);
}

/// How many bytes entries take up in a buffer, all together.
pub open spec fn total_size(entries: Seq<KeyVal>) -> nat
    decreases entries.len(),
{
    if entries.len() == 0 {
        0
    } else {
        total_size(entries.drop_last()) + Entries::size_of(entries.last().0, entries.last().1)
    }
}

/// One more entry takes up its own size more.
pub proof fn total_size_push(entries: Seq<KeyVal>, entry: KeyVal)
    ensures
        total_size(entries.push(entry)) == total_size(entries) + Entries::size_of(
            entry.0,
            entry.1,
        ),
{
    assert(entries.push(entry).drop_last() =~= entries);
}

/// How long the keys and the data of bounds are, all together.
spec fn total_len(bounds: Seq<EntryBound>) -> nat
    decreases bounds.len(),
{
    if bounds.len() == 0 {
        0
    } else {
        (total_len(bounds.drop_last()) + bounds.last().key_length
            + bounds.last().data_length) as nat
    }
}

proof fn total_len_push(bounds: Seq<EntryBound>, bound: EntryBound)
    ensures
        total_len(bounds.push(bound)) == total_len(bounds) + bound.key_length + bound.data_length,
{
    assert(bounds.push(bound).drop_last() =~= bounds);
}

proof fn total_len_add(a: Seq<EntryBound>, b: Seq<EntryBound>)
    ensures
        total_len(a + b) == total_len(a) + total_len(b),
    decreases b.len(),
{
    if b.len() == 0 {
        assert(a + b =~= a);
    } else {
        total_len_add(a, b.drop_last());
        assert((a + b).drop_last() =~= a + b.drop_last());
    }
}

proof fn total_len_size(buffer: Seq<u8>, bounds: Seq<EntryBound>)
    requires
        all_within(bounds, buffer.len() as int),
    ensures
        total_size(entries_in(buffer, bounds)) == slots(bounds.len() as int) + total_len(bounds),
    decreases bounds.len(),
{
    if bounds.len() > 0 {
        let before = bounds.drop_last();
        assert forall|i: int| #![trigger before[i]] 0 <= i < before.len() implies before[i].within(
            buffer.len() as int,
        ) by {
            assert(before[i] == bounds[i]);
        }
        total_len_size(buffer, before);
        assert(bounds[bounds.len() - 1].within(buffer.len() as int));
        assert(entries_in(buffer, bounds).drop_last() =~= entries_in(buffer, before));
    }
}

/// Stores entries memory-efficiently in a buffer.
///
/// The buffer holds the bounds of the entries at its front, in order, and the
/// bytes of their keys and data at its back, where the last entry inserted comes
/// first:
///
/// `[----bounds---->--remaining--<--key+data--]`
pub struct Entries {
    buffer: Vec<u8>,
    entries_len: usize,
    bounds_count: usize,
    bounds: Ghost<Seq<EntryBound>>,
}

impl View for Entries {
    type V = Seq<KeyVal>;

    closed spec fn view(&self) -> Seq<KeyVal> {
        entries_in(self.buffer@, self.bounds@)
    }
}

/// The entries of bounds in a buffer.
spec fn entries_in(buffer: Seq<u8>, bounds: Seq<EntryBound>) -> Seq<KeyVal> {
    bounds.map_values(|bound: EntryBound| bound.entry(buffer))
}

impl Entries {
    /// Whether the bounds stand at the front of the buffer and the entries lie at
    /// its back.
    pub closed spec fn wf(&self) -> bool {
        &&& whole_bounds(self.buffer@.len())
        &&& self.bounds@.len() == self.bounds_count
        &&& self.used() <= self.buffer@.len()
        &&& self.entries_len == total_len(self.bounds@)
        &&& forall|i: int| #![trigger self.bounds@[i]]
            0 <= i < self.bounds@.len() ==> self.bounds@[i].within(self.entries_len as int)
                && self.buffer@.subrange(slots(i), slots(i + 1)) == self.bounds@[i].bytes()
    }

    /// How many bytes of the buffer are taken.
    pub closed spec fn used(&self) -> nat {
        (slots(self.bounds_count as int) + self.entries_len) as nat
    }

    /// How many bytes the buffer has.
    pub closed spec fn capacity(&self) -> nat {
        self.buffer@.len()
    }

    /// How many bytes an entry takes up.
    pub open spec fn size_of(key: Seq<u8>, data: Seq<u8>) -> nat {
        bound_size() + key.len() + data.len()
    }

    /// Whether an entry can be stored: it fits, or it will after the buffer has
    /// been doubled to a size that a machine can allocate.
    pub open spec fn can_hold(&self, key: Seq<u8>, data: Seq<u8>) -> bool {
        let need = self.used() + Self::size_of(key, data);
        need <= self.capacity() || (self.capacity() > 0 && doubled(self.capacity(), need)
            <= isize::MAX)
    }

    /// The size of the buffer once an entry is stored.
    pub open spec fn capacity_for(&self, key: Seq<u8>, data: Seq<u8>) -> nat {
        let need = self.used() + Self::size_of(key, data);
        if need <= self.capacity() {
            self.capacity()
        } else {
            doubled(self.capacity(), need)
        }
    }

    /// A well-formed buffer is not over-full, and is a whole number of bounds long.
    pub proof fn wf_capacity(&self)
        requires
            self.wf(),
        ensures
            self.used() <= self.capacity() <= usize::MAX,
            whole_bounds(self.capacity()),
    {
        assert(self.buffer.len() <= usize::MAX);
    }

    /// What is taken of the buffer is what its entries take up.
    pub proof fn used_by_entries(&self)
        requires
            self.wf(),
        ensures
            self.used() == total_size(self@),
    {
        assert forall|i: int| #![trigger self.bounds@[i]]
            0 <= i < self.bounds@.len() implies self.bounds@[i].within(
            self.buffer@.len() as int,
        ) by {
            assert(self.bounds@[i].within(self.entries_len as int));
        }
        total_len_size(self.buffer@, self.bounds@);
    }

    /// Creates a buffer of this size, rounded up to a whole number of bounds.
    pub fn with_capacity(capacity: usize) -> (entries: Entries)
        requires
            rounded_up(capacity as nat) <= isize::MAX,
        ensures
            entries.wf(),
            entries@ == Seq::<KeyVal>::empty(),
            entries.capacity() == rounded_up(capacity as nat),
            entries.used() == 0,
    {
        let entries = Entries {
            buffer: Self::new_buffer(capacity),
            entries_len: 0,
            bounds_count: 0,
            bounds: Ghost(Seq::empty()),
        };
        assert(entries@ =~= Seq::empty());
        entries
    }

    /// Forgets all entries.
    pub fn clear(&mut self)
        requires
            old(self).wf(),
        ensures
            final(self).wf(),
            final(self)@ == Seq::<KeyVal>::empty(),
            final(self).capacity() == old(self).capacity(),
            final(self).used() == 0,
    {
        self.entries_len = 0;
        self.bounds_count = 0;
        self.bounds = Ghost(Seq::empty());
        assert(self@ =~= Seq::empty());
    }

    /// Whether inserting an entry does not make the buffer grow.
    pub fn fits(&self, key: &[u8], data: &[u8]) -> (r: bool)
        requires
            self.wf(),
            Self::size_of(key@, data@) <= usize::MAX,
        ensures
            r == (self.used() + Self::size_of(key@, data@) <= self.capacity()),
    {
        let bounds_that_fit = bounds_in(self.buffer.len());
        let remaining_bounds = bounds_that_fit - self.bounds_count;
        self.remaining() >= Self::entry_size(key, data) && remaining_bounds >= 1
    }

    /// The size of the buffer.
    pub fn memory_usage(&self) -> (r: usize)
        ensures
            r == self.capacity(),
    {
        self.buffer.len()
    }

    /// How many bytes are left before the buffer has to grow: all but what the entries
    /// take up.
    pub fn remaining(&self) -> (r: usize)
        requires
            self.wf(),
        ensures
            r == self.capacity() - self.used(),
            r + total_size(self@) == self.capacity(),
    {
        proof {
            self.used_by_entries();
        }
        self.buffer.len() - self.entries_len - slot_bytes(self.bounds_count)
    }

    /// The size that an entry takes up in the buffer.
    pub fn entry_size(key: &[u8], data: &[u8]) -> (r: usize)
        requires
            Self::size_of(key@, data@) <= usize::MAX,
        ensures
            r == Self::size_of(key@, data@),
    {
        slot_bytes(1) + key.len() + data.len()
    }

    /// Allocates a buffer of a size, rounded up to a whole number of bounds, and of
    /// zeros.
    fn new_buffer(size: usize) -> (buffer: Vec<u8>)
        requires
            rounded_up(size as nat) <= isize::MAX,
        ensures
            buffer@ == Seq::new(rounded_up(size as nat), |i: int| 0u8),
    {
        let bounds = bounds_in(size + (slot_bytes(1) - 1));
        let mut buffer: Vec<u8> = Vec::new();
        buffer.resize(slot_bytes(bounds), 0);
        assert(buffer@ =~= Seq::new(rounded_up(size as nat), |i: int| 0u8));
        buffer
    }

    /// A buffer of twice the size, with the bounds at its front and the entries at its
    /// back.
    #[verifier::spinoff_prover]
    fn grown(&self) -> (buffer: Vec<u8>)
        requires
            self.wf(),
            2 * self.capacity() <= isize::MAX,
        ensures
            buffer@.len() == 2 * self.buffer@.len(),
            ({
                let front = slots(self.bounds_count as int);
                let back = self.entries_len as int;
                let (a, b) = (self.buffer@, buffer@);
                &&& a.subrange(0, front) == b.subrange(0, front)
                &&& a.subrange(a.len() - back, a.len() as int) == b.subrange(
                    b.len() - back,
                    b.len() as int,
                )
            }),
    {
        let len = self.buffer.len();
        let bounds_end: usize = slot_bytes(self.bounds_count);
        let entries_start: usize = len - self.entries_len;
        let mut buffer = Self::new_buffer(len * 2);
        let new_len = buffer.len();
        let ghost blank = buffer@;
        overwrite(&mut buffer, 0, slice_subrange(self.buffer.as_slice(), 0, bounds_end));
        overwrite(
            &mut buffer,
            new_len - self.entries_len,
            slice_subrange(self.buffer.as_slice(), entries_start, len),
        );
        proof {
            let held = self.entries_len as int;
            let front = self.buffer@.subrange(0, bounds_end as int);
            let back = self.buffer@.subrange(len - held, len as int);
            let half = overwritten(blank, 0, front);
            overwritten_there(blank, 0, front);
            overwritten_there(half, new_len - held, back);
            overwritten_elsewhere(half, new_len - held, back, 0, bounds_end as int);
        }
        buffer
    }

    /// Doubles the buffer, and copies the bounds and the entries over.
    #[verifier::spinoff_prover]
    fn reallocate_buffer(&mut self)
        requires
            old(self).wf(),
            2 * old(self).capacity() <= isize::MAX,
        ensures
            final(self).wf(),
            final(self)@ == old(self)@,
            final(self).capacity() == 2 * old(self).capacity(),
            final(self).used() == old(self).used(),
    {
        self.buffer = self.grown();
        proof {
            let a = old(self).buffer@;
            let b = self.buffer@;
            let front = slots(self.bounds_count as int);
            assert forall|i: int| #![trigger self.bounds@[i]]
                0 <= i < self.bounds@.len() implies b.subrange(slots(i), slots(i + 1))
                == self.bounds@[i].bytes() && self.bounds@[i].entry(b)
                == old(self).bounds@[i].entry(a) by {
                let bound = self.bounds@[i];
                assert(bound.within(self.entries_len as int));
                bound_in_grown(a, b, front, self.entries_len as int, i, bound);
            }
            assert(self@ =~= old(self)@);
        }
    }

    /// Writes a bound into a slot at the front of the buffer.
    fn write_bound(&mut self, i: usize, bound: EntryBound)
        requires
            slots(i + 1) <= old(self).buffer@.len(),
        ensures
            final(self).buffer@ == overwritten(old(self).buffer@, slots(i as int), bound.bytes()),
            final(self).entries_len == old(self).entries_len,
            final(self).bounds_count == old(self).bounds_count,
            final(self).bounds == old(self).bounds,
    {
        let len = self.buffer.len();
        let bytes = bound.to_bytes();
        let at = slot_bytes(i);
        proof {
            bound.bytes_len();
        }
        overwrite(&mut self.buffer, at, bytes.as_slice());
    }

    /// Reads a word from the buffer.
    fn read_word(&self, at: usize) -> (word: u32)
        requires
            at + 4 <= self.buffer@.len(),
        ensures
            word == le_value(self.buffer@.subrange(at as int, at + 4)),
    {
        let len = self.buffer.len();
        let bytes = [
            self.buffer[at],
            self.buffer[at + 1],
            self.buffer[at + 2],
            self.buffer[at + 3],
        ];
        assert(bytes@ =~= self.buffer@.subrange(at as int, at + 4));
        bytes_to_word(bytes)
    }

    /// Reads a bound from a slot at the front of the buffer.
    fn read_bound(&self, i: usize) -> (bound: EntryBound)
        requires
            self.wf(),
            i < self.bounds@.len(),
        ensures
            bound == self.bounds@[i as int],
    {
        let len = self.buffer.len();
        let ghost expected = self.bounds@[i as int];
        let at = slot_bytes(i);
        let lengths: usize = at + (slot_bytes(1) - 8);
        proof {
            assert(expected.within(self.entries_len as int));
            let bytes = expected.bytes();
            assert(self.buffer@.subrange(slots(i as int), slots(i + 1)) == bytes);
            expected.bytes_len();
            span_of_u32();
            let n = bound_size() - 8;
            let low = (expected.key_start as nat) % 0x1_0000_0000;
            le_round_trip(low, 4);
            le_round_trip(expected.key_length as nat, 4);
            le_round_trip(expected.data_length as nat, 4);
            assert(self.buffer@.subrange(at as int, at + 4) =~= le_bytes(low, 4)) by {
                assert(self.buffer@.subrange(at as int, at + 4) =~= bytes.subrange(0, 4));
                assert(bytes.subrange(0, 4) =~= le_bytes(low, 4));
            }
            if usize::BITS != 32 {
                let high = (expected.key_start as nat) / 0x1_0000_0000;
                le_round_trip(high, 4);
                assert(self.buffer@.subrange(at + 4, at + 8) =~= bytes.subrange(4, 8));
                assert(bytes.subrange(4, 8) =~= le_bytes(high, 4));
            }
            assert(self.buffer@.subrange(lengths as int, lengths + 4) =~= bytes.subrange(n, n + 4));
            assert(bytes.subrange(n, n + 4) =~= le_bytes(expected.key_length as nat, 4));
            assert(self.buffer@.subrange(lengths + 4, lengths + 8) =~= bytes.subrange(
                n + 4,
                n + 8,
            ));
            assert(bytes.subrange(n + 4, n + 8) =~= le_bytes(expected.data_length as nat, 4));
        }
        let low = self.read_word(at);
        let key_start: u64 = if usize::BITS == 32 {
            low as u64
        } else {
            low as u64 + self.read_word(at + 4) as u64 * 0x1_0000_0000
        };
        EntryBound {
            key_start: key_start as usize,
            key_length: self.read_word(lengths),
            data_length: self.read_word(lengths + 4),
        }
    }

    /// Doubles the buffer until an entry fits.
    fn make_room(&mut self, key: &[u8], data: &[u8])
        requires
            old(self).wf(),
            old(self).can_hold(key@, data@),
        ensures
            final(self).wf(),
            final(self)@ == old(self)@,
            final(self).used() == old(self).used(),
            final(self).used() + Self::size_of(key@, data@) <= final(self).capacity(),
            final(self).capacity() == old(self).capacity_for(key@, data@),
    {
        let ghost need = self.used() + Self::size_of(key@, data@);
        proof {
            self.wf_capacity();
            if self.capacity() > 0 {
                doubled_bounds(self.capacity(), need);
            }
        }
        while !self.fits(key, data)
            invariant
                self.wf(),
                self@ == old(self)@,
                self.used() == old(self).used(),
                need == old(self).used() + Self::size_of(key@, data@),
                Self::size_of(key@, data@) <= usize::MAX,
                self.capacity() >= need || (self.capacity() > 0 && doubled(self.capacity(), need)
                    == doubled(old(self).capacity(), need) && doubled(self.capacity(), need)
                    <= isize::MAX),
                old(self).capacity() >= need ==> self.capacity() == old(self).capacity(),
                old(self).capacity() < need && self.capacity() >= need ==> self.capacity()
                    == doubled(old(self).capacity(), need),
            decreases shortfall(self.capacity(), need),
        {
            proof {
                doubled_bounds(self.capacity() * 2, need);
            }
            self.reallocate_buffer();
        }
    }

    /// Stores an entry for which there is room.
    #[verifier::spinoff_prover]
    fn store(&mut self, key: &[u8], data: &[u8])
        requires
            old(self).wf(),
            key@.len() <= u32::MAX,
            data@.len() <= u32::MAX,
            old(self).used() + Self::size_of(key@, data@) <= old(self).capacity(),
        ensures
            final(self).wf(),
            final(self)@ == old(self)@.push((key@, data@)),
            final(self).used() == old(self).used() + Self::size_of(key@, data@),
            final(self).capacity() == old(self).capacity(),
    {
        let len = self.buffer.len();
        let count = self.bounds_count;
        self.entries_len = self.entries_len + (key.len() + data.len());
        let entries_start: usize = len - self.entries_len;
        let bound = EntryBound {
            key_start: self.entries_len,
            key_length: key.len() as u32,
            data_length: data.len() as u32,
        };
        overwrite(&mut self.buffer, entries_start, key);
        let ghost b1 = self.buffer@;
        overwrite(&mut self.buffer, entries_start + key.len(), data);
        let ghost b2 = self.buffer@;
        self.write_bound(count, bound);
        self.bounds_count = count + 1;
        self.bounds = Ghost(self.bounds@.push(bound));
        proof {
            let b0 = old(self).buffer@;
            let b3 = self.buffer@;
            let k = entries_start as int;
            let d = k + key@.len();
            let s = slots(count as int);
            total_len_push(old(self).bounds@, bound);
            bound.bytes_len();
            overwritten_there(b0, k, key@);
            overwritten_there(b1, d, data@);
            overwritten_there(b2, s, bound.bytes());
            overwritten_elsewhere(b1, d, data@, k, d);
            overwritten_elsewhere(b2, s, bound.bytes(), k, d);
            overwritten_elsewhere(b2, s, bound.bytes(), d, d + data@.len());
            assert forall|i: int| #![trigger self.bounds@[i]]
                0 <= i < old(self).bounds@.len() implies b3.subrange(slots(i), slots(i + 1))
                == self.bounds@[i].bytes() && self.bounds@[i].entry(b3)
                == old(self).bounds@[i].entry(b0) && self.bounds@[i].within(
                self.entries_len as int,
            ) by {
                let other = old(self).bounds@[i];
                assert(other.within(old(self).entries_len as int));
                let x = len - other.key_start;
                let y = x + other.key_length;
                let z = y + other.data_length;
                overwritten_elsewhere(b0, k, key@, slots(i), slots(i + 1));
                overwritten_elsewhere(b0, k, key@, x, y);
                overwritten_elsewhere(b0, k, key@, y, z);
                overwritten_elsewhere(b1, d, data@, slots(i), slots(i + 1));
                overwritten_elsewhere(b1, d, data@, x, y);
                overwritten_elsewhere(b1, d, data@, y, z);
                overwritten_elsewhere(b2, s, bound.bytes(), slots(i), slots(i + 1));
                overwritten_elsewhere(b2, s, bound.bytes(), x, y);
                overwritten_elsewhere(b2, s, bound.bytes(), y, z);
            }
            assert(self@ =~= old(self)@.push((key@, data@)));
        }
    }

    /// Inserts an entry after those already there. Where there is not enough room,
    /// the buffer is doubled until there is.
    pub fn insert(&mut self, key: &[u8], data: &[u8])
        requires
            old(self).wf(),
            key@.len() <= u32::MAX,
            data@.len() <= u32::MAX,
            old(self).can_hold(key@, data@),
        ensures
            final(self).wf(),
            final(self)@ == old(self)@.push((key@, data@)),
            final(self).used() == old(self).used() + Self::size_of(key@, data@),
            final(self).capacity() == old(self).capacity_for(key@, data@),
    {
        self.make_room(key, data);
        self.store(key, data);
    }

    /// How many entries there are.
    pub fn len(&self) -> (r: usize)
        requires
            self.wf(),
        ensures
            r == self@.len(),
    {
        self.bounds_count
    }

    /// The entry of a bound.
    fn resolve(&self, bound: EntryBound) -> (r: (&[u8], &[u8]))
        requires
            bound.within(self.buffer@.len() as int),
        ensures
            (r.0@, r.1@) == bound.entry(self.buffer@),
    {
        let bytes = self.buffer.as_slice();
        let key: usize = bytes.len() - bound.key_start;
        let data: usize = key + bound.key_length as usize;
        let end: usize = data + bound.data_length as usize;
        (slice_subrange(bytes, key, data), slice_subrange(bytes, data, end))
    }

    /// The entry at a position.
    pub fn entry(&self, i: usize) -> (r: (&[u8], &[u8]))
        requires
            self.wf(),
            i < self@.len(),
        ensures
            (r.0@, r.1@) == self@[i as int],
    {
        let bound = self.read_bound(i);
        assert(self.bounds@[i as int].within(self.entries_len as int));
        self.resolve(bound)
    }

    /// The keys and datas, in order.
    pub fn iter(&self) -> (r: Vec<(&[u8], &[u8])>)
        requires
            self.wf(),
        ensures
            r@.len() == self@.len(),
            forall|i: int| #![trigger r@[i]]
                0 <= i < r@.len() ==> (r@[i].0@, r@[i].1@) == self@[i],
    {
        let mut all: Vec<(&[u8], &[u8])> = Vec::new();
        let n = self.len();
        let mut i: usize = 0;
        while i < n
            invariant
                self.wf(),
                n == self@.len(),
                i <= n,
                all@.len() == i,
                forall|j: int| #![trigger all@[j]]
                    0 <= j < i ==> (all@[j].0@, all@[j].1@) == self@[j],
            decreases n - i,
        {
            all.push(self.entry(i));
            i = i + 1;
        }
        all
    }

    /// Merges two lists of bounds that are sorted by the keys of their entries.
    /// Among equal keys, the first list comes first.
    fn merge_bounds(&self, a: Vec<EntryBound>, b: Vec<EntryBound>) -> (r: Vec<EntryBound>)
        requires
            all_within(a@, self.buffer@.len() as int),
            all_within(b@, self.buffer@.len() as int),
            ascending(entries_in(self.buffer@, a@)),
            ascending(entries_in(self.buffer@, b@)),
            a@.len() + b@.len() <= usize::MAX,
        ensures
            r@.len() == a@.len() + b@.len(),
            forall|x: EntryBound| #[trigger] r@.contains(x) ==> a@.contains(x) || b@.contains(x),
            ascending(entries_in(self.buffer@, r@)),
            same_values(
                entries_in(self.buffer@, r@),
                entries_in(self.buffer@, a@) + entries_in(self.buffer@, b@),
            ),
            total_len(r@) == total_len(a@) + total_len(b@),
    {
        let mut out: Vec<EntryBound> = Vec::new();
        let mut i: usize = 0;
        let mut j: usize = 0;
        let ghost buffer = self.buffer@;
        let ghost ea = entries_in(buffer, a@);
        let ghost eb = entries_in(buffer, b@);
        proof {
            assert(ea.skip(0) =~= ea);
            assert(eb.skip(0) =~= eb);
            assert forall|k: Seq<u8>| true implies #[trigger] left(
                entries_in(buffer, out@),
                ea.skip(0),
                eb.skip(0),
                k,
            ) == vals_of(ea, k) + vals_of(eb, k) by {
                assert(left(entries_in(buffer, out@), ea, eb, k) =~= vals_of(ea, k) + vals_of(
                    eb,
                    k,
                ));
            }
        }
        while i < a.len() || j < b.len()
            invariant
                i <= a@.len(),
                j <= b@.len(),
                out@.len() == i + j,
                total_len(out@) == total_len(a@.take(i as int)) + total_len(b@.take(j as int)),
                a@.len() + b@.len() <= usize::MAX,
                buffer == self.buffer@,
                ea == entries_in(buffer, a@),
                eb == entries_in(buffer, b@),
                all_within(a@, buffer.len() as int),
                all_within(b@, buffer.len() as int),
                ascending(ea),
                ascending(eb),
                forall|x: EntryBound| #[trigger]
                    out@.contains(x) ==> a@.contains(x) || b@.contains(x),
                ascending(entries_in(buffer, out@)),
                forall|m: int, n: int| #![trigger entries_in(buffer, out@)[m], ea[n]]
                    0 <= m < out@.len() && i <= n < ea.len() ==> key_le(
                        entries_in(buffer, out@)[m].0,
                        ea[n].0,
                    ),
                forall|m: int, n: int| #![trigger entries_in(buffer, out@)[m], eb[n]]
                    0 <= m < out@.len() && j <= n < eb.len() ==> key_le(
                        entries_in(buffer, out@)[m].0,
                        eb[n].0,
                    ),
                forall|k: Seq<u8>| #[trigger]
                    left(entries_in(buffer, out@), ea.skip(i as int), eb.skip(j as int), k)
                        == vals_of(ea, k) + vals_of(eb, k),
            decreases a@.len() - i + (b@.len() - j),
        {
            let from_a = if j >= b.len() {
                true
            } else if i >= a.len() {
                false
            } else {
                assert(a@[i as int].within(buffer.len() as int));
                assert(b@[j as int].within(buffer.len() as int));
                match compare_keys(self.resolve(b[j]).0, self.resolve(a[i]).0) {
                    KeyOrder::Less => false,
                    _ => true,
                }
            };
            proof {
                if i < a@.len() && j < b@.len() {
                    key_le_total(ea[i as int].0, eb[j as int].0);
                    assert(from_a ==> key_le(ea[i as int].0, eb[j as int].0)) by {
                        if ea[i as int].0 == eb[j as int].0 {
                            key_le_reflexive(ea[i as int].0);
                        }
                    }
                    assert(!from_a ==> key_lt(eb[j as int].0, ea[i as int].0));
                }
            }
            let ghost before = entries_in(buffer, out@);
            let next: EntryBound = if from_a {
                a[i]
            } else {
                b[j]
            };
            let ghost held = out@;
            out.push(next);
            proof {
                let e = next.entry(buffer);
                let after = entries_in(buffer, out@);
                assert(after =~= before.push(e));
                total_len_push(held, next);
                if from_a {
                    total_len_push(a@.take(i as int), next);
                    assert(a@.take(i as int).push(next) =~= a@.take(i + 1));
                } else {
                    total_len_push(b@.take(j as int), next);
                    assert(b@.take(j as int).push(next) =~= b@.take(j + 1));
                }
                assert forall|x: EntryBound| #[trigger] out@.contains(x) implies a@.contains(x)
                    || b@.contains(x) by {
                    let n = choose|n: int| 0 <= n < out@.len() && out@[n] == x;
                    if n < held.len() {
                        assert(held[n] == x);
                        assert(held.contains(x));
                    }
                }
                if from_a {
                    assert(e == ea[i as int]);
                    assert(ea.skip(i as int).drop_first() =~= ea.skip(i + 1));
                    assert forall|k: Seq<u8>| true implies #[trigger] left(
                        after,
                        ea.skip(i + 1),
                        eb.skip(j as int),
                        k,
                    ) == vals_of(ea, k) + vals_of(eb, k) by {
                        vals_of_front(ea.skip(i as int), k);
                        assert(after.drop_last() =~= before);
                        assert(left(after, ea.skip(i + 1), eb.skip(j as int), k) =~= left(
                            before,
                            ea.skip(i as int),
                            eb.skip(j as int),
                            k,
                        ));
                    }
                    key_le_reflexive(e.0);
                    assert forall|n: int| j <= n < eb.len() implies key_le(
                        e.0,
                        #[trigger] eb[n].0,
                    ) by {
                        if n > j {
                            key_le_transitive(e.0, eb[j as int].0, eb[n].0);
                        }
                    }
                    assert forall|n: int| i < n < ea.len() implies key_le(
                        e.0,
                        #[trigger] ea[n].0,
                    ) by {}
                } else {
                    assert(e == eb[j as int]);
                    assert(eb.skip(j as int).drop_first() =~= eb.skip(j + 1));
                    assert forall|n: int| i <= n < ea.len() implies key_lt(
                        e.0,
                        #[trigger] ea[n].0,
                    ) by {
                        if n > i {
                            key_lt_le_transitive(e.0, ea[i as int].0, ea[n].0);
                        }
                    }
                    assert forall|k: Seq<u8>| true implies #[trigger] left(
                        after,
                        ea.skip(i as int),
                        eb.skip(j + 1),
                        k,
                    ) == vals_of(ea, k) + vals_of(eb, k) by {
                        vals_of_front(eb.skip(j as int), k);
                        assert(after.drop_last() =~= before);
                        if k == e.0 {
                            assert forall|n: int| 0 <= n < ea.skip(i as int).len() implies (
                            #[trigger] ea.skip(i as int)[n]).0 != k by {
                                assert(ea.skip(i as int)[n] == ea[i + n]);
                            }
                            vals_of_absent(ea.skip(i as int), k);
                        }
                        assert(left(after, ea.skip(i as int), eb.skip(j + 1), k) =~= left(
                            before,
                            ea.skip(i as int),
                            eb.skip(j as int),
                            k,
                        ));
                    }
                    assert forall|n: int| j < n < eb.len() implies key_le(
                        e.0,
                        #[trigger] eb[n].0,
                    ) by {}
                }
                assert forall|m: int, n: int| #![trigger after[m], after[n]]
                    0 <= m < n < after.len() implies key_le(after[m].0, after[n].0) by {
                    if n < before.len() {
                        assert(after[m] == before[m]);
                        assert(after[n] == before[n]);
                    } else {
                        assert(after[m] == before[m]);
                        if from_a {
                            assert(key_le(before[m].0, ea[i as int].0));
                        } else {
                            assert(key_le(before[m].0, eb[j as int].0));
                        }
                    }
                }
            }
            if from_a {
                i = i + 1;
            } else {
                j = j + 1;
            }
        }
        assert(a@.take(i as int) =~= a@);
        assert(b@.take(j as int) =~= b@);
        proof {
            let out = entries_in(buffer, out@);
            assert forall|k: Seq<u8>| #![trigger vals_of(out, k)] true implies vals_of(out, k)
                == vals_of(ea + eb, k) by {
                assert(ea.skip(i as int) =~= Seq::empty());
                assert(eb.skip(j as int) =~= Seq::empty());
                assert(left(out, ea.skip(i as int), eb.skip(j as int), k) =~= vals_of(out, k));
                vals_of_add(ea, eb, k);
            }
        }
        out
    }

    /// Sorts bounds by the keys of their entries, and keeps the order of equal keys.
    fn sort_bounds(&self, bounds: Vec<EntryBound>) -> (r: Vec<EntryBound>)
        requires
            all_within(bounds@, self.buffer@.len() as int),
        ensures
            r@.len() == bounds@.len(),
            forall|x: EntryBound| #[trigger] r@.contains(x) ==> bounds@.contains(x),
            ascending(entries_in(self.buffer@, r@)),
            same_values(entries_in(self.buffer@, r@), entries_in(self.buffer@, bounds@)),
            total_len(r@) == total_len(bounds@),
        decreases bounds@.len(),
    {
        let n = bounds.len();
        if n <= 1 {
            return bounds;
        }
        let ghost buffer = self.buffer@;
        let mut a = bounds;
        let b = a.split_off(n / 2);
        let ghost (a0, b0) = (a@, b@);
        assert(a0 + b0 =~= bounds@);
        proof {
            total_len_add(a0, b0);
        }
        let a = self.sort_bounds(a);
        let b = self.sort_bounds(b);
        proof {
            assert forall|x: EntryBound| a@.contains(x) || b@.contains(x) implies #[trigger]
                bounds@.contains(x) by {
                if a@.contains(x) {
                    let i = choose|i: int| 0 <= i < a0.len() && a0[i] == x;
                    assert(bounds@[i] == x);
                } else {
                    let i = choose|i: int| 0 <= i < b0.len() && b0[i] == x;
                    assert(bounds@[a0.len() + i] == x);
                }
            }
            assert forall|i: int| #![trigger a@[i]] 0 <= i < a@.len() implies a@[i].within(
                buffer.len() as int,
            ) by {
                assert(a@.contains(a@[i]));
                assert(bounds@.contains(a@[i]));
            }
            assert forall|i: int| #![trigger b@[i]] 0 <= i < b@.len() implies b@[i].within(
                buffer.len() as int,
            ) by {
                assert(b@.contains(b@[i]));
                assert(bounds@.contains(b@[i]));
            }
        }
        let r = self.merge_bounds(a, b);
        proof {
            let er = entries_in(buffer, r@);
            let ea = entries_in(buffer, a@);
            let eb = entries_in(buffer, b@);
            assert(entries_in(buffer, bounds@) =~= entries_in(buffer, a0) + entries_in(buffer, b0));
            assert forall|k: Seq<u8>| #![trigger vals_of(er, k)] true implies vals_of(er, k)
                == vals_of(entries_in(buffer, bounds@), k) by {
                vals_of_add(ea, eb, k);
                vals_of_add(entries_in(buffer, a0), entries_in(buffer, b0), k);
                assert(vals_of(er, k) == vals_of(ea + eb, k));
                assert(vals_of(ea, k) == vals_of(entries_in(buffer, a0), k));
                assert(vals_of(eb, k) == vals_of(entries_in(buffer, b0), k));
            }
        }
        r
    }

    /// Sorts the entries by their keys. The values of each key stay in the order in
    /// which they were inserted.
    pub fn sort_unstable_by_key(&mut self)
        requires
            old(self).wf(),
        ensures
            final(self).wf(),
            final(self)@.len() == old(self)@.len(),
            ascending(final(self)@),
            same_values(final(self)@, old(self)@),
            final(self).capacity() == old(self).capacity(),
            final(self).used() == old(self).used(),
    {
        let len = self.buffer.len();
        let count = self.bounds_count;
        let mut bounds: Vec<EntryBound> = Vec::new();
        let mut i: usize = 0;
        while i < count
            invariant
                i <= count,
                self.wf(),
                count == self.bounds@.len(),
                bounds@ == self.bounds@.take(i as int),
            decreases count - i,
        {
            bounds.push(self.read_bound(i));
            i = i + 1;
            assert(bounds@ =~= self.bounds@.take(i as int));
        }
        assert(bounds@ =~= self.bounds@);
        let ghost buffer = self.buffer@;
        assert forall|i: int| #![trigger bounds@[i]]
            0 <= i < bounds@.len() implies bounds@[i].within(buffer.len() as int) by {
            assert(self.bounds@[i].within(self.entries_len as int));
        }
        let sorted_bounds = self.sort_bounds(bounds);
        let ghost es = entries_in(buffer, sorted_bounds@);
        proof {
            assert forall|i: int| #![trigger sorted_bounds@[i]]
                0 <= i < sorted_bounds@.len() implies sorted_bounds@[i].within(
                self.entries_len as int,
            ) by {
                assert(sorted_bounds@.contains(sorted_bounds@[i]));
                assert(bounds@.contains(sorted_bounds@[i]));
                let n = choose|n: int|
                    0 <= n < bounds@.len() && bounds@[n] == sorted_bounds@[i];
                assert(self.bounds@[n].within(self.entries_len as int));
            }
        }
        let mut i: usize = 0;
        while i < count
            invariant
                i <= count,
                count == self.bounds_count,
                self.bounds_count == old(self).bounds_count,
                self.entries_len == old(self).entries_len,
                len == buffer.len(),
                len == self.buffer@.len(),
                slots(count as int) + self.entries_len <= len,
                self.entries_len == total_len(sorted_bounds@),
                sorted_bounds@.len() == count,
                self.buffer@.skip(slots(count as int)) == buffer.skip(slots(count as int)),
                forall|n: int| #![trigger sorted_bounds@[n]]
                    0 <= n < i ==> self.buffer@.subrange(slots(n), slots(n + 1))
                        == sorted_bounds@[n].bytes(),
            decreases count - i,
        {
            let ghost before = self.buffer@;
            let bound = sorted_bounds[i];
            self.write_bound(i, bound);
            proof {
                bound.bytes_len();
                let at = slots(i as int);
                overwritten_there(before, at, bound.bytes());
                assert forall|n: int| #![trigger sorted_bounds@[n]] 0 <= n < i implies
                    self.buffer@.subrange(slots(n), slots(n + 1)) == sorted_bounds@[n].bytes() by {
                    overwritten_elsewhere(before, at, bound.bytes(), slots(n), slots(n + 1));
                }
                overwritten_elsewhere(before, at, bound.bytes(), slots(count as int), len as int);
                assert(self.buffer@.skip(slots(count as int)) =~= self.buffer@.subrange(
                    slots(count as int),
                    len as int,
                ));
                let taken = slots(count as int);
                assert(before.skip(taken) =~= before.subrange(taken, len as int));
            }
            i = i + 1;
        }
        self.bounds = Ghost(sorted_bounds@);
        proof {
            assert forall|n: int| #![trigger sorted_bounds@[n]] 0 <= n < count implies
                sorted_bounds@[n].entry(self.buffer@) == sorted_bounds@[n].entry(buffer) by {
                let bound = sorted_bounds@[n];
                let x = len - bound.key_start;
                let y = x + bound.key_length;
                let z = y + bound.data_length;
                let s = slots(count as int);
                assert(self.buffer@.subrange(x, y) =~= self.buffer@.skip(s).subrange(x - s, y - s));
                assert(buffer.subrange(x, y) =~= buffer.skip(s).subrange(x - s, y - s));
                assert(self.buffer@.subrange(y, z) =~= self.buffer@.skip(s).subrange(y - s, z - s));
                assert(buffer.subrange(y, z) =~= buffer.skip(s).subrange(y - s, z - s));
            }
            assert(self@ =~= es);
        }
    }
}

/// Whether bounds lie in the last `len` bytes.
spec fn all_within(bounds: Seq<EntryBound>, len: int) -> bool {
    forall|i: int| #![trigger bounds[i]] 0 <= i < bounds.len() ==> bounds[i].within(len)
}

/// The values of a key in a list that is merged, and in what is left of two others.
spec fn left(out: Seq<KeyVal>, a: Seq<KeyVal>, b: Seq<KeyVal>, key: Seq<u8>) -> Seq<Seq<u8>> {
    vals_of(out, key) + vals_of(a, key) + vals_of(b, key)
}

/// A bound takes up the bits of an address and of two lengths of 32 bits.
pub proof fn bits_of_bounds(n: int)
    ensures
        8 * slots(n) == n * (usize::BITS + 64),
        8 * bound_size() == usize::BITS + 64,
{
    if usize::BITS == 32 {
        assert(n * (usize::BITS + 64) == 96 * n) by (nonlinear_arith)
            requires
                usize::BITS == 32,
        ;
    } else {
        assert(n * (usize::BITS + 64) == 128 * n) by (nonlinear_arith)
            requires
                usize::BITS == 64,
        ;
    }
}

/// A size is rounded up to that of a whole number of bounds, by less than one of them.
pub proof fn rounding_up(size: nat) -> (count: nat)
    ensures
        rounded_up(size) == slots(count as int),
        size <= rounded_up(size) < size + bound_size(),
        whole_bounds(size) ==> rounded_up(size) == size,
{
    if usize::BITS == 32 {
        (size + 11) / 12
    } else {
        (size + 15) / 16
    }
}

/// A size is doubled as often as it takes to reach what is needed, and not once more.
pub proof fn doubling(size: nat, need: nat) -> (times: nat)
    requires
        size > 0,
    ensures
        doubled(size, need) == size * pow2(times),
        doubled(size, need) >= need,
        times > 0 ==> size * pow2((times - 1) as nat) < need,
    decreases shortfall(size, need),
{
    lemma2_to64();
    if size >= need {
        assert(size * pow2(0) == size) by (nonlinear_arith)
            requires
                pow2(0) == 1,
        ;
        0
    } else {
        let times = doubling(size * 2, need);
        lemma_pow2_unfold(times + 1);
        assert(size * pow2(times + 1) == size * 2 * pow2(times)) by (nonlinear_arith)
            requires
                pow2(times + 1) == 2 * pow2(times),
        ;
        if times == 0 {
            assert(size * pow2(0) == size) by (nonlinear_arith)
                requires
                    pow2(0) == 1,
            ;
        } else {
            lemma_pow2_unfold(times);
            let p = pow2((times - 1) as nat);
            assert(size * pow2(times) == size * 2 * p) by (nonlinear_arith)
                requires
                    pow2(times) == 2 * p,
            ;
        }
        times + 1
    }
}

/// An entry takes up a bound, its key and its data; entries take up what each of them
/// does.
pub proof fn size_of_entries(entries: Seq<KeyVal>, key: Seq<u8>, data: Seq<u8>)
    ensures
        8 * Entries::size_of(key, data) == usize::BITS + 64 + 8 * key.len() + 8 * data.len(),
        8 * total_size(entries) == entries.len() * (usize::BITS + 64) + 8 * entries.map_values(
            |entry: KeyVal| entry.0 + entry.1,
        ).flatten().len(),
    decreases entries.len(),
{
    bits_of_bounds(entries.len() as int);
    let f = |entry: KeyVal| entry.0 + entry.1;
    if entries.len() > 0 {
        let init = entries.drop_last();
        size_of_entries(init, key, data);
        bits_of_bounds(init.len() as int);
        assert(entries.map_values(f) =~= init.map_values(f).push(f(entries.last())));
        init.map_values(f).lemma_flatten_push(f(entries.last()));
    }
}

/// The buffer grows for an entry only where the entry does not fit behind what is taken,
/// and then it is doubled.
pub proof fn growth(entries: &Entries, key: Seq<u8>, data: Seq<u8>)
    ensures
        ({
            let need = entries.used() + bound_size() + key.len() + data.len();
            &&& need <= entries.capacity() ==> {
                &&& entries.can_hold(key, data)
                &&& entries.capacity_for(key, data) == entries.capacity()
            }
            &&& need > entries.capacity() && entries.capacity() > 0 ==> {
                &&& entries.capacity_for(key, data) == doubled(entries.capacity(), need as nat)
                &&& entries.can_hold(key, data) <==> doubled(entries.capacity(), need as nat)
                    <= isize::MAX
                &&& 2 * need <= isize::MAX ==> entries.can_hold(key, data)
            }
        }),
{
    let need = entries.used() + bound_size() + key.len() + data.len();
    if entries.capacity() > 0 {
        doubled_bounds(entries.capacity(), need as nat);
    }
}

} // verus!
