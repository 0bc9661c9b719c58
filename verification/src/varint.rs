//! Variable-length encoding of 32-bit lengths: seven bits a byte, least
//! significant first, with the high bit set on every byte but the last.

use vstd::prelude::*;

verus! {

/// The most bytes that the encoding of a 32-bit number takes.
pub const MAX_VARINT_LEN: usize = 5;

/// The encoding of a number.
pub open spec fn varint(n: nat) -> Seq<u8>
    decreases n,
{
    if n < 128 {
        seq![n as u8]
    } else {
        seq![(n % 128 + 128) as u8] + varint(n / 128)
    }
}

/// The number spelt by the first bytes of `s`, of which at most `limit` are
/// looked at, and how many bytes spell it. `None` where the bytes run out before
/// one without the high bit.
pub open spec fn varint_prefix(s: Seq<u8>, limit: nat) -> Option<(nat, nat)>
    decreases limit,
{
    if limit == 0 || s.len() == 0 {
        None
    } else if s[0] < 128 {
        Some((s[0] as nat, 1))
    } else {
        match varint_prefix(s.skip(1), (limit - 1) as nat) {
            Some((value, len)) => Some(((s[0] - 128 + 128 * value) as nat, len + 1)),
            None => None,
        }
    }
}

/// The 32-bit number encoded at the start of `s`, and the length of its encoding.
pub open spec fn varint_decoded(s: Seq<u8>) -> Option<(nat, nat)> {
    match varint_prefix(s, MAX_VARINT_LEN as nat) {
        Some((value, len)) if value <= u32::MAX => Some((value, len)),
        _ => None,
    }
}

/// How many numbers `limit` bytes can spell.
spec fn varint_span(limit: nat) -> nat
    decreases limit,
{
    if limit == 0 {
        1
    } else {
        128 * varint_span((limit - 1) as nat)
    }
}

proof fn varint_prefix_of_varint(n: nat, limit: nat, rest: Seq<u8>)
    requires
        0 < limit,
        n < varint_span(limit),
    ensures
        varint_prefix(varint(n) + rest, limit) == Some((n, varint(n).len())),
        1 <= varint(n).len() <= limit,
    decreases limit,
{
    let s = varint(n) + rest;
    if n < 128 {
        assert(s[0] == n as u8);
    } else {
        reveal_with_fuel(varint_span, 2);
        varint_prefix_of_varint(n / 128, (limit - 1) as nat, rest);
        assert(s[0] == (n % 128 + 128) as u8);
        assert(s.skip(1) =~= varint(n / 128) + rest);
    }
}

/// Decoding gives back the number that was encoded, whatever bytes follow.
pub proof fn varint_round_trip(n: nat, rest: Seq<u8>)
    requires
        n <= u32::MAX,
    ensures
        varint_decoded(varint(n) + rest) == Some((n, varint(n).len())),
        1 <= varint(n).len() <= MAX_VARINT_LEN,
{
    reveal_with_fuel(varint_span, 6);
    varint_prefix_of_varint(n, 5, rest);
}

proof fn varint_prefix_len(s: Seq<u8>, limit: nat)
    ensures
        varint_prefix(s, limit) matches Some((value, len)) ==> 1 <= len <= s.len() && len <= limit,
    decreases limit,
{
    if limit > 0 && s.len() > 0 && s[0] >= 128 {
        varint_prefix_len(s.skip(1), (limit - 1) as nat);
    }
}

/// A decoded number takes up one to five of the bytes that are there.
pub proof fn varint_decoded_len(s: Seq<u8>)
    ensures
        varint_decoded(s) matches Some((value, len)) ==> 1 <= len <= s.len() && len
            <= MAX_VARINT_LEN,
{
    varint_prefix_len(s, MAX_VARINT_LEN as nat);
}

/// Appends the encoding of a number to a buffer.
pub fn varint_encode32(buffer: &mut Vec<u8>, n: u32)
    ensures
        final(buffer)@ == old(buffer)@ + varint(n as nat),
{
    let mut rest: u32 = n;
    while rest >= 128
        invariant
            buffer@ + varint(rest as nat) == old(buffer)@ + varint(n as nat),
        decreases rest,
    {
        let ghost before = buffer@;
        buffer.push((rest % 128) as u8 + 128);
        proof {
            assert(before + varint(rest as nat) =~= buffer@ + varint((rest / 128) as nat));
        }
        rest = rest / 128;
    }
    buffer.push(rest as u8);
    assert(buffer@ =~= old(buffer)@ + varint(n as nat));
}

/// Decodes the number at the start of `data`: the number and the length of its
/// encoding, or `None` where no encoding of a 32-bit number stands there.
pub fn varint_decode32(data: &[u8]) -> (r: Option<(u32, usize)>)
    ensures
        match r {
            Some((value, len)) => varint_decoded(data@) == Some((value as nat, len as nat)),
            None => varint_decoded(data@) is None,
        },
{
    let mut value: u64 = 0;
    let mut weight: u64 = 1;
    let mut i: usize = 0;
    assert(data@.skip(0) =~= data@);
    while i < data.len() && i < MAX_VARINT_LEN && data[i] >= 128
        invariant
            i <= data@.len(),
            i <= MAX_VARINT_LEN,
            weight == varint_span(i as nat),
            value < weight,
            weight <= 0x8_0000_0000,
            varint_prefix(data@, 5) == match varint_prefix(data@.skip(i as int), (5 - i) as nat) {
                Some((v, len)) => Some((value as nat + weight as nat * v, len + i as nat)),
                None => None,
            },
        decreases data@.len() - i,
    {
        proof {
            reveal_with_fuel(varint_span, 6);
            assert(data@.skip(i as int).skip(1) =~= data@.skip(i + 1));
            let b = data@[i as int];
            assert(data@.skip(i as int)[0] == b);
            match varint_prefix(data@.skip(i + 1), (5 - i - 1) as nat) {
                Some((v, len)) => {
                    assert(weight * (b - 128 + 128 * v) == weight * (b - 128) + weight * 128 * v)
                        by (nonlinear_arith);
                },
                None => {},
            }
            assert(weight * (b - 128) + value < weight * 128) by (nonlinear_arith)
                requires
                    0 <= b - 128 < 128,
                    value < weight,
            ;
            assert(0 <= weight * (b - 128)) by (nonlinear_arith)
                requires
                    0 <= b - 128,
            ;
        }
        value = value + weight * (data[i] as u64 - 128);
        weight = weight * 128;
        i = i + 1;
    }
    if i >= data.len() || i >= MAX_VARINT_LEN {
        return None;
    }
    let b: u8 = data[i];
    assert(data@.skip(i as int)[0] == b);
    assert(weight * b <= weight * 127) by (nonlinear_arith)
        requires
            b <= 127,
    ;
    let total: u64 = value + weight * (b as u64);
    if total <= 0xffff_ffff {
        Some((total as u32, i + 1))
    } else {
        None
    }
}

/// What is decoded: the low seven bits of one to five bytes, the first byte with the
/// lowest power of 128. The high bit is set on all of them but the last, and the number
/// has at most 32 bits. Where no such bytes are at the start, nothing is.
pub proof fn varint_decoded_digits(s: Seq<u8>, value: nat, len: nat)
    ensures
        varint_decoded(s) == Some((value, len)) <==> {
            let digit = |i: int|
                if i < len {
                    s[i] % 128
                } else {
                    0
                };
            &&& 1 <= len <= 5
            &&& len <= s.len()
            &&& forall|i: int| 0 <= i < len - 1 ==> #[trigger] s[i] >= 128
            &&& s[len - 1] < 128
            &&& value == digit(0) + digit(1) * 0x80 + digit(2) * 0x4000 + digit(3) * 0x20_0000
                + digit(4) * 0x1000_0000
            &&& value < 0x1_0000_0000
        },
{
    reveal_with_fuel(varint_prefix, 2);
    let (s1, s2, s3, s4) = (s.skip(1), s.skip(2), s.skip(3), s.skip(4));
    if s.len() > 4 {
        assert(s4[0] == s[4]);
        assert(s3.skip(1) =~= s4);
        assert(varint_prefix(s4.skip(1), 0) is None);
    }
    if s.len() > 3 {
        assert(s3[0] == s[3]);
        assert(s2.skip(1) =~= s3);
    }
    if s.len() > 2 {
        assert(s2[0] == s[2]);
        assert(s1.skip(1) =~= s2);
    }
    if s.len() > 1 {
        assert(s1[0] == s[1]);
        assert(s.skip(1) =~= s1);
    }
    let p4 = varint_prefix(s4, 1);
    let p3 = varint_prefix(s3, 2);
    let p2 = varint_prefix(s2, 3);
    let p1 = varint_prefix(s1, 4);
    let p0 = varint_prefix(s, 5);
    assert(forall|x: u8| x < 128 ==> #[trigger] (x % 128) == x);
    assert(forall|x: u8| x >= 128 ==> #[trigger] (x % 128) == x - 128);
    if s.len() == 0 {
    } else if s[0] < 128 {
        assert(p0 == Some((s[0] as nat, 1nat)));
    } else if s.len() == 1 {
        assert(s1.len() == 0);
        assert(p1 is None);
    } else if s[1] < 128 {
        assert(p1 == Some((s[1] as nat, 1nat)));
        assert(p0 == Some(((s[0] - 128 + 128 * s[1]) as nat, 2nat)));
    } else if s.len() == 2 {
        assert(s2.len() == 0);
        assert(p2 is None);
        assert(p1 is None);
    } else if s[2] < 128 {
        assert(p2 == Some((s[2] as nat, 1nat)));
        assert(p1 == Some(((s[1] - 128 + 128 * s[2]) as nat, 2nat)));
        assert(p0 == Some(((s[0] - 128 + 128 * (s[1] - 128 + 128 * s[2])) as nat, 3nat)));
    } else if s.len() == 3 {
        assert(s3.len() == 0);
        assert(p3 is None);
        assert(p2 is None);
        assert(p1 is None);
    } else if s[3] < 128 {
        assert(p3 == Some((s[3] as nat, 1nat)));
        assert(p2 == Some(((s[2] - 128 + 128 * s[3]) as nat, 2nat)));
        assert(p1 == Some(((s[1] - 128 + 128 * (s[2] - 128 + 128 * s[3])) as nat, 3nat)));
        assert(p0 == Some(
            ((s[0] - 128 + 128 * (s[1] - 128 + 128 * (s[2] - 128 + 128 * s[3]))) as nat, 4nat),
        ));
    } else if s.len() == 4 {
        assert(s4.len() == 0);
        assert(p4 is None);
        assert(p3 is None);
        assert(p2 is None);
        assert(p1 is None);
    } else if s[4] < 128 {
        assert(p4 == Some((s[4] as nat, 1nat)));
        assert(p3 == Some(((s[3] - 128 + 128 * s[4]) as nat, 2nat)));
        assert(p2 == Some(((s[2] - 128 + 128 * (s[3] - 128 + 128 * s[4])) as nat, 3nat)));
        assert(p1 == Some(
            ((s[1] - 128 + 128 * (s[2] - 128 + 128 * (s[3] - 128 + 128 * s[4]))) as nat, 4nat),
        ));
        assert(p0 == Some(
            (
                (s[0] - 128 + 128 * (s[1] - 128 + 128 * (s[2] - 128 + 128 * (s[3] - 128 + 128
                    * s[4])))) as nat,
                5nat,
            ),
        ));
    } else {
        assert(p4 is None);
        assert(p3 is None);
        assert(p2 is None);
        assert(p1 is None);
    }
}

/// The encoding of a number is as short as can be.
pub proof fn varint_is_shortest(n: nat)
    requires
        n < 0x1_0000_0000,
    ensures
        varint(n).len() == if n < 0x80 {
            1
        } else if n < 0x4000 {
            2
        } else if n < 0x20_0000 {
            3
        } else if n < 0x1000_0000 {
            4
        } else {
            5int
        },
        forall|i: int| 0 <= i < varint(n).len() - 1 ==> #[trigger] varint(n)[i] >= 128,
        varint(n).last() < 128,
{
    reveal_with_fuel(varint, 6);
}

} // verus!
