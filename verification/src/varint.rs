//! Variable-length integers for the ticket payload.
//!
//! A value is stored seven bits per byte, least significant group first;
//! every byte but the last has its high bit set. The writer always emits the
//! shortest form. The reader takes at most ten bytes and requires the tenth,
//! when present, to hold at most one value bit, so that every accepted
//! encoding denotes a value below two to the sixty-fourth; forms with
//! superfluous leading zero groups are accepted, as the original wire format
//! reads them too.

use vstd::prelude::*;

verus! {

/// The shortest encoding of `n`.
pub open spec fn spec_varint(n: nat) -> Seq<u8>
    decreases n,
{
    if n < 128 {
        seq![n as u8]
    } else {
        seq![(n % 128 + 128) as u8] + spec_varint(n / 128)
    }
}

/// Greatest value (exclusive) that may begin at reading depth `d`.
pub open spec fn varint_bound(d: int) -> nat {
    if d == 9 {
        2
    } else if d == 8 {
        0x100
    } else if d == 7 {
        0x8000
    } else if d == 6 {
        0x400000
    } else if d == 5 {
        0x20000000
    } else if d == 4 {
        0x1000000000
    } else if d == 3 {
        0x80000000000
    } else if d == 2 {
        0x4000000000000
    } else if d == 1 {
        0x200000000000000
    } else {
        0x10000000000000000
    }
}

/// Parse a variable-length integer from the front of `b`, already `d` bytes
/// deep into the encoding; yields the value and the bytes consumed from `b`.
pub open spec fn parse_varint_from(b: Seq<u8>, d: int) -> Option<(nat, int)>
    decreases 10 - d,
{
    if d >= 10 || b.len() == 0 {
        None
    } else {
        let v = b[0];
        if v & 0x80 == 0 {
            if d == 9 && v > 1 {
                None
            } else {
                Some(((v & 0x7f) as nat, 1))
            }
        } else {
            match parse_varint_from(b.drop_first(), d + 1) {
                Some((n, used)) => Some((((v & 0x7f) as nat + 128 * n) as nat, used + 1)),
                None => None,
            }
        }
    }
}

/// Parse a variable-length integer from the front of `b`.
pub open spec fn parse_varint(b: Seq<u8>) -> Option<(nat, int)> {
    parse_varint_from(b, 0)
}

/// The shortest encoding is read back as the value it encodes, whatever
/// follows it.
proof fn lemma_varint_round_trip_from(n: nat, rest: Seq<u8>, d: int)
    requires
        0 <= d <= 9,
        n < varint_bound(d),
    ensures
        parse_varint_from(spec_varint(n) + rest, d) == Some((n, spec_varint(n).len() as int)),
    decreases n,
{
    let b = spec_varint(n) + rest;
    if n < 128 {
        let v: u8 = n as u8;
        assert(b[0] == v);
        assert(v & 0x80 == 0 && v & 0x7f == v) by (bit_vector)
            requires
                v < 128,
        ;
    } else {
        let v: u8 = (n % 128 + 128) as u8;
        assert(b[0] == v);
        let lo: u8 = (n % 128) as u8;
        assert(v == lo + 128 && lo < 128);
        assert(v & 0x80 != 0 && v & 0x7f == (v - 128) as u8) by (bit_vector)
            requires
                128 <= v,
        ;
        assert(n / 128 < varint_bound(d + 1));
        lemma_varint_round_trip_from(n / 128, rest, d + 1);
        assert(b.drop_first() =~= spec_varint(n / 128) + rest);
        assert((v & 0x7f) as nat + 128 * (n / 128) == n);
    }
}

/// Round trip: the writer's output, read from the start, gives back `n`.
pub proof fn lemma_varint_round_trip(n: nat, rest: Seq<u8>)
    requires
        n < 0x10000000000000000,
    ensures
        parse_varint(spec_varint(n) + rest) == Some((n, spec_varint(n).len() as int)),
{
    lemma_varint_round_trip_from(n, rest, 0);
}

/// A parsed value is below two to the sixty-fourth and fits the input.
pub proof fn lemma_parse_varint_bounds(b: Seq<u8>, d: int)
    requires
        0 <= d <= 9,
        parse_varint_from(b, d) is Some,
    ensures
        parse_varint_from(b, d).unwrap().0 < varint_bound(d),
        1 <= parse_varint_from(b, d).unwrap().1 <= b.len(),
    decreases 10 - d,
{
    let v = b[0];
    if v & 0x80 == 0 {
        assert(v & 0x7f < 128) by (bit_vector);
        if d == 9 {
            assert(v <= 1);
            assert(v & 0x7f == v) by (bit_vector)
                requires
                    v <= 1,
            ;
        }
    } else {
        lemma_parse_varint_bounds(b.drop_first(), d + 1);
        assert(v & 0x7f < 128) by (bit_vector);
    }
}

/// Append the shortest encoding of `n` to `out`.
pub fn write_varint(out: &mut Vec<u8>, n: u64)
    ensures
        final(out)@ == old(out)@ + spec_varint(n as nat),
{
    let ghost prev = out@;
    let mut value: u64 = n;
    while value >= 128
        invariant
            out@ + spec_varint(value as nat) == prev + spec_varint(n as nat),
        decreases value,
    {
        let byte: u8 = (value % 128) as u8 + 128;
        out.push(byte);
        proof {
            let ghost old_val = value as nat;
            assert(spec_varint(old_val) == seq![byte] + spec_varint(old_val / 128));
            assert((out@ + spec_varint((value as nat) / 128)) =~= (out@.take(out@.len() - 1)
                + spec_varint(old_val)));
        }
        value = value / 128;
    }
    out.push(value as u8);
    proof {
        assert(spec_varint(value as nat) == seq![value as u8]);
        assert(out@ =~= out@.take(out@.len() - 1) + spec_varint(value as nat));
        assert(out@ =~= prev + spec_varint(n as nat));
    }
}

/// Read one encoded integer from `b` at `pos`, already `d` bytes deep.
fn read_varint_rec(b: &[u8], pos: usize, d: u32) -> (r: Option<(u64, usize)>)
    requires
        pos <= b@.len(),
        d <= 9,
    ensures
        match r {
            Some((value, used)) => {
                &&& parse_varint_from(b@.skip(pos as int), d as int) == Some(
                    (value as nat, used as int),
                )
                &&& 1 <= used <= 10 - d
                &&& pos + used <= b@.len()
                &&& (value as nat) < varint_bound(d as int)
            },
            None => parse_varint_from(b@.skip(pos as int), d as int) is None,
        },
    decreases 10 - d,
{
    let n: usize = b.len();
    if pos >= n {
        return None;
    }
    let v: u8 = b[pos];
    proof {
        assert(b@.skip(pos as int)[0] == b@[pos as int]);
    }
    if v & 0x80 == 0 {
        if d == 9 && v > 1 {
            return None;
        }
        proof {
            assert(v & 0x7f == v && v < 128) by (bit_vector)
                requires
                    v & 0x80 == 0,
            ;
        }
        Some((v as u64, 1))
    } else {
        if d == 9 {
            proof {
                assert(parse_varint_from(b@.skip(pos as int).drop_first(), 10) is None);
            }
            return None;
        }
        proof {
            assert(b@.skip(pos as int).drop_first() =~= b@.skip(pos + 1));
        }
        match read_varint_rec(b, pos + 1, d + 1) {
            Some((rest, used)) => {
                let low: u8 = v & 0x7f;
                proof {
                    assert(low < 128) by (bit_vector)
                        requires
                            low == v & 0x7f,
                    ;
                    assert(128 * (rest as nat) <= 128 * (varint_bound(d as int + 1) - 1));
                }
                let value: u64 = low as u64 + 128 * rest;
                Some((value, used + 1))
            },
            None => None,
        }
    }
}

/// Read a variable-length integer from `b` starting at `pos`; the result is
/// the value and the position after it.
pub fn read_varint(b: &[u8], pos: usize) -> (r: Option<(u64, usize)>)
    requires
        pos <= b@.len(),
    ensures
        match r {
            Some((value, end)) => {
                &&& parse_varint(b@.skip(pos as int)) == Some(
                    (value as nat, (end - pos) as int),
                )
                &&& pos < end <= b@.len()
            },
            None => parse_varint(b@.skip(pos as int)) is None,
        },
{
    let n: usize = b.len();
    match read_varint_rec(b, pos, 0) {
        Some((value, used)) => Some((value, pos + used)),
        None => None,
    }
}

} // verus!
