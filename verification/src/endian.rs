//! Fixed-width integers as bytes.

use byteorder::ByteOrder;
use vstd::prelude::*;

verus! {

/// The number that bytes spell in base 256, most significant byte first.
pub open spec fn be_value(s: Seq<u8>) -> nat
    decreases s.len(),
{
    if s.len() == 0 {
        0
    } else {
        be_value(s.drop_last()) * 256 + s.last() as nat
    }
}

/// The last `width` digits of a number in base 256, most significant first.
pub open spec fn be_bytes(n: nat, width: nat) -> Seq<u8>
    decreases width,
{
    if width == 0 {
        Seq::empty()
    } else {
        be_bytes(n / 256, (width - 1) as nat).push((n % 256) as u8)
    }
}

/// The number that bytes spell in base 256, least significant byte first.
pub open spec fn le_value(s: Seq<u8>) -> nat
    decreases s.len(),
{
    if s.len() == 0 {
        0
    } else {
        le_value(s.drop_first()) * 256 + s.first() as nat
    }
}

/// The last `width` digits of a number in base 256, least significant first.
pub open spec fn le_bytes(n: nat, width: nat) -> Seq<u8>
    decreases width,
{
    if width == 0 {
        Seq::empty()
    } else {
        seq![(n % 256) as u8] + le_bytes(n / 256, (width - 1) as nat)
    }
}

/// How many numbers `width` digits in base 256 can spell.
pub open spec fn span(width: nat) -> nat
    decreases width,
{
    if width == 0 {
        1
    } else {
        256 * span((width - 1) as nat)
    }
}

/// Eight digits in base 256 spell any number of 64 bits.
pub proof fn span_of_u64()
    ensures
        span(8) == u64::MAX + 1,
{
    reveal_with_fuel(span, 9);
}

/// Four digits in base 256 spell any number of 32 bits.
pub proof fn span_of_u32()
    ensures
        span(4) == u32::MAX + 1,
{
    reveal_with_fuel(span, 5);
}

/// Big-endian digits read back as the number that they were made from.
pub proof fn be_round_trip(n: nat, width: nat)
    requires
        n < span(width),
    ensures
        be_bytes(n, width).len() == width,
        be_value(be_bytes(n, width)) == n,
    decreases width,
{
    if width > 0 {
        be_round_trip(n / 256, (width - 1) as nat);
        let s = be_bytes(n, width);
        assert(s.drop_last() =~= be_bytes(n / 256, (width - 1) as nat));
        assert(s.last() == (n % 256) as u8);
    }
}

/// Little-endian digits read back as the number that they were made from.
pub proof fn le_round_trip(n: nat, width: nat)
    requires
        n < span(width),
    ensures
        le_bytes(n, width).len() == width,
        le_value(le_bytes(n, width)) == n,
    decreases width,
{
    if width > 0 {
        le_round_trip(n / 256, (width - 1) as nat);
        let s = le_bytes(n, width);
        assert(s.drop_first() =~= le_bytes(n / 256, (width - 1) as nat));
        assert(s.first() == (n % 256) as u8);
    }
}

/// Reads a 64-bit integer with `byteorder::BigEndian::read_u64`: the value of
/// the first eight bytes, most significant first.
#[verifier::external_body]
pub(crate) fn read_u64_be(bytes: &[u8]) -> (n: u64)
    requires
        bytes@.len() >= 8,
    ensures
        n == be_value(bytes@.take(8)),
{
    byteorder::BigEndian::read_u64(bytes)
}

/// Writes a 64-bit integer with `byteorder::BigEndian::write_u64` over the first
/// eight bytes, most significant first, and leaves the others as they were.
#[verifier::external_body]
pub(crate) fn write_u64_be(bytes: &mut [u8], n: u64)
    requires
        old(bytes)@.len() >= 8,
    ensures
        final(bytes)@ == be_bytes(n as nat, 8) + old(bytes)@.skip(8),
{
    byteorder::BigEndian::write_u64(bytes, n)
}

/// The eight bytes of a 64-bit integer, most significant first.
pub fn u64_to_be(n: u64) -> (v: Vec<u8>)
    ensures
        v@ == be_bytes(n as nat, 8),
{
    let mut v: Vec<u8> = vec![0, 0, 0, 0, 0, 0, 0, 0];
    write_u64_be(v.as_mut_slice(), n);
    proof {
        span_of_u64();
        be_round_trip(n as nat, 8);
        assert(v@ =~= be_bytes(n as nat, 8));
    }
    v
}

/// Lays a 32-bit integer out as bytes with `bytemuck::cast`, least significant byte
/// first: `u32::to_le` puts the bytes in that order on a machine of either byte order,
/// and the cast keeps them as they stand in memory.
#[verifier::external_body]
pub(crate) fn word_to_bytes(word: u32) -> (bytes: [u8; 4])
    ensures
        bytes@ == le_bytes(word as nat, 4),
{
    bytemuck::cast(word.to_le())
}

/// Reads a 32-bit integer from its bytes with `bytemuck::cast`, least significant byte
/// first: the cast keeps the bytes as they stand in memory, and `u32::from_le` reads
/// them in that order on a machine of either byte order.
#[verifier::external_body]
pub(crate) fn bytes_to_word(bytes: [u8; 4]) -> (word: u32)
    ensures
        word == le_value(bytes@),
{
    u32::from_le(bytemuck::cast(bytes))
}

/// Eight bytes spell the sum of each of them times its power of 256, the first with the
/// highest.
pub proof fn be_value_of_eight(s: Seq<u8>)
    requires
        s.len() == 8,
    ensures
        be_value(s) == s[0] * 0x100_0000_0000_0000 + s[1] * 0x1_0000_0000_0000 + s[2]
            * 0x100_0000_0000 + s[3] * 0x1_0000_0000 + s[4] * 0x100_0000 + s[5] * 0x1_0000 + s[6]
            * 0x100 + s[7],
{
    reveal_with_fuel(be_value, 9);
}

/// The eight bytes of a number of 64 bits add up to it, the first with the highest power
/// of 256.
pub proof fn be_bytes_of_eight(n: nat)
    requires
        n <= u64::MAX,
    ensures
        ({
            let s = be_bytes(n, 8);
            &&& s.len() == 8
            &&& n == s[0] * 0x100_0000_0000_0000 + s[1] * 0x1_0000_0000_0000 + s[2]
                * 0x100_0000_0000 + s[3] * 0x1_0000_0000 + s[4] * 0x100_0000 + s[5] * 0x1_0000
                + s[6] * 0x100 + s[7]
        }),
{
    span_of_u64();
    be_round_trip(n, 8);
    be_value_of_eight(be_bytes(n, 8));
}

/// The four bytes of a number of 32 bits add up to it, the first with the lowest power of
/// 256, and they are read so.
pub proof fn le_of_four(n: nat, s: Seq<u8>)
    requires
        n <= u32::MAX,
        s.len() == 4,
    ensures
        ({
            let t = le_bytes(n, 4);
            &&& t.len() == 4
            &&& n == t[0] + t[1] * 0x100 + t[2] * 0x1_0000 + t[3] * 0x100_0000
        }),
        le_value(s) == s[0] + s[1] * 0x100 + s[2] * 0x1_0000 + s[3] * 0x100_0000,
{
    span_of_u32();
    le_round_trip(n, 4);
    reveal_with_fuel(le_value, 5);
}

} // verus!
