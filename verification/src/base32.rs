//! Text-safe encoding of binary payloads for shareable tokens.
//!
//! A payload is encoded five bits per symbol, most significant bits first,
//! into the lower-case alphabet `a`..`z` `2`..`7`, without padding. Decoding
//! accepts upper-case symbols as well, and rejects inputs whose length is
//! impossible or whose trailing unused bits are not zero, so that every
//! accepted text denotes exactly one payload.

use vstd::prelude::*;

verus! {

/// The symbol (as an ASCII byte) that encodes the five-bit value `v`.
pub open spec fn sym_char(v: u8) -> u8
    recommends
        v < 32,
{
    if v < 26 {
        (97 + v) as u8  // 'a' + v
    } else {
        (24 + v) as u8  // '2' + (v - 26)
    }
}

/// The five-bit value a symbol stands for, accepting either letter case.
pub open spec fn sym_value(c: u8) -> Option<u8> {
    if 97 <= c && c <= 122 {
        Some((c - 97) as u8)  // 'a'..'z'
    } else if 65 <= c && c <= 90 {
        Some((c - 65) as u8)  // 'A'..'Z'
    } else if 50 <= c && c <= 55 {
        Some((c - 24) as u8)  // '2'..'7'
    } else {
        None
    }
}

/// Whether every byte of `s` is a valid symbol.
pub open spec fn all_syms(s: Seq<u8>) -> bool {
    forall|i: int| 0 <= i < s.len() ==> sym_value(#[trigger] s[i]) is Some
}

/// The five-bit values of the symbols of `s`.
pub open spec fn sym_values(s: Seq<u8>) -> Seq<u8> {
    Seq::new(s.len(), |i: int| sym_value(s[i]).unwrap_or(0))
}

/// The five-bit values encoding one group of one to five payload bytes,
/// most significant bits first, the last value padded with zero bits.
pub open spec fn group_vals(b: Seq<u8>) -> Seq<u8>
    recommends
        1 <= b.len() <= 5,
{
    let x0: u8 = b[0];
    if b.len() == 1 {
        seq![x0 >> 3, (x0 & 7) << 2]
    } else {
        let x1: u8 = b[1];
        if b.len() == 2 {
            seq![x0 >> 3, ((x0 & 7) << 2) | (x1 >> 6), (x1 >> 1) & 31, (x1 & 1) << 4]
        } else {
            let x2: u8 = b[2];
            if b.len() == 3 {
                seq![
                    x0 >> 3,
                    ((x0 & 7) << 2) | (x1 >> 6),
                    (x1 >> 1) & 31,
                    ((x1 & 1) << 4) | (x2 >> 4),
                    (x2 & 15) << 1,
                ]
            } else {
                let x3: u8 = b[3];
                if b.len() == 4 {
                    seq![
                        x0 >> 3,
                        ((x0 & 7) << 2) | (x1 >> 6),
                        (x1 >> 1) & 31,
                        ((x1 & 1) << 4) | (x2 >> 4),
                        ((x2 & 15) << 1) | (x3 >> 7),
                        (x3 >> 2) & 31,
                        (x3 & 3) << 3,
                    ]
                } else {
                    let x4: u8 = b[4];
                    seq![
                        x0 >> 3,
                        ((x0 & 7) << 2) | (x1 >> 6),
                        (x1 >> 1) & 31,
                        ((x1 & 1) << 4) | (x2 >> 4),
                        ((x2 & 15) << 1) | (x3 >> 7),
                        (x3 >> 2) & 31,
                        ((x3 & 3) << 3) | (x4 >> 5),
                        x4 & 31,
                    ]
                }
            }
        }
    }
}

/// The five-bit values encoding the whole payload `b`, group by group.
pub open spec fn encode_vals(b: Seq<u8>) -> Seq<u8>
    decreases b.len(),
{
    if b.len() == 0 {
        Seq::empty()
    } else if b.len() <= 5 {
        group_vals(b)
    } else {
        group_vals(b.take(5)) + encode_vals(b.skip(5))
    }
}

/// The encoded text (as ASCII bytes) of payload `b`.
pub open spec fn spec_encode(b: Seq<u8>) -> Seq<u8> {
    encode_vals(b).map_values(|v: u8| sym_char(v))
}

/// The payload bytes denoted by one group of two to eight five-bit values,
/// or `None` when the unused trailing bits of the last value are not zero.
pub open spec fn decode_group(t: Seq<u8>) -> Option<Seq<u8>>
    recommends
        t.len() == 2 || t.len() == 4 || t.len() == 5 || t.len() == 7 || t.len() == 8,
{
    let c0: u8 = t[0];
    let c1: u8 = t[1];
    let x0: u8 = (c0 << 3) | (c1 >> 2);
    if t.len() == 2 {
        if c1 & 3 == 0 {
            Some(seq![x0])
        } else {
            None
        }
    } else {
        let c2: u8 = t[2];
        let c3: u8 = t[3];
        let x1: u8 = ((c1 & 3) << 6) | (c2 << 1) | (c3 >> 4);
        if t.len() == 4 {
            if c3 & 15 == 0 {
                Some(seq![x0, x1])
            } else {
                None
            }
        } else {
            let c4: u8 = t[4];
            let x2: u8 = ((c3 & 15) << 4) | (c4 >> 1);
            if t.len() == 5 {
                if c4 & 1 == 0 {
                    Some(seq![x0, x1, x2])
                } else {
                    None
                }
            } else {
                let c5: u8 = t[5];
                let c6: u8 = t[6];
                let x3: u8 = ((c4 & 1) << 7) | (c5 << 2) | (c6 >> 3);
                if t.len() == 7 {
                    if c6 & 7 == 0 {
                        Some(seq![x0, x1, x2, x3])
                    } else {
                        None
                    }
                } else {
                    let c7: u8 = t[7];
                    let x4: u8 = ((c6 & 7) << 5) | c7;
                    Some(seq![x0, x1, x2, x3, x4])
                }
            }
        }
    }
}

/// The payload denoted by a sequence of five-bit values, or `None` when the
/// length is impossible or a trailing check fails.
pub open spec fn decode_vals(t: Seq<u8>) -> Option<Seq<u8>>
    decreases t.len(),
{
    if t.len() == 0 {
        Some(Seq::empty())
    } else if t.len() == 1 || t.len() == 3 || t.len() == 6 {
        None
    } else if t.len() < 8 {
        decode_group(t)
    } else {
        match (decode_group(t.take(8)), decode_vals(t.skip(8))) {
            (Some(head), Some(rest)) => Some(head + rest),
            _ => None,
        }
    }
}

/// The payload denoted by the text `s` (as ASCII bytes), or `None` when `s`
/// is not a well-formed encoding.
pub open spec fn spec_decode(s: Seq<u8>) -> Option<Seq<u8>> {
    if all_syms(s) {
        decode_vals(sym_values(s))
    } else {
        None
    }
}

/// A symbol decodes back to the value it encodes.
proof fn lemma_sym_round_trip(v: u8)
    requires
        v < 32,
    ensures
        sym_value(sym_char(v)) == Some(v),
{
}

/// The values of one encoded group are five-bit values, there are as many of
/// them as the group's byte count asks, and they decode back to the group.
proof fn lemma_group_round_trip(b: Seq<u8>)
    requires
        1 <= b.len() <= 5,
    ensures
        forall|i: int| 0 <= i < group_vals(b).len() ==> #[trigger] group_vals(b)[i] < 32,
        b.len() == 1 ==> group_vals(b).len() == 2,
        b.len() == 2 ==> group_vals(b).len() == 4,
        b.len() == 3 ==> group_vals(b).len() == 5,
        b.len() == 4 ==> group_vals(b).len() == 7,
        b.len() == 5 ==> group_vals(b).len() == 8,
        decode_group(group_vals(b)) == Some(b),
{
    let x0: u8 = b[0];
    if b.len() == 1 {
        assert(x0 >> 3 < 32 && (x0 & 7) << 2 < 32 && ((x0 & 7) << 2) & 3 == 0 && ((x0 >> 3) << 3)
            | (((x0 & 7) << 2) >> 2) == x0) by (bit_vector);
        assert(decode_group(group_vals(b)).unwrap() =~= b);
    } else if b.len() == 2 {
        let x1: u8 = b[1];
        assert({
            let c0: u8 = x0 >> 3;
            let c1: u8 = ((x0 & 7) << 2) | (x1 >> 6);
            let c2: u8 = (x1 >> 1) & 31;
            let c3: u8 = (x1 & 1) << 4;
            c0 < 32 && c1 < 32 && c2 < 32 && c3 < 32 && c3 & 15 == 0 && ((c0 << 3) | (c1 >> 2))
                == x0 && (((c1 & 3) << 6) | (c2 << 1) | (c3 >> 4)) == x1
        }) by (bit_vector);
        assert(decode_group(group_vals(b)).unwrap() =~= b);
    } else if b.len() == 3 {
        let x1: u8 = b[1];
        let x2: u8 = b[2];
        assert({
            let c0: u8 = x0 >> 3;
            let c1: u8 = ((x0 & 7) << 2) | (x1 >> 6);
            let c2: u8 = (x1 >> 1) & 31;
            let c3: u8 = ((x1 & 1) << 4) | (x2 >> 4);
            let c4: u8 = (x2 & 15) << 1;
            c0 < 32 && c1 < 32 && c2 < 32 && c3 < 32 && c4 < 32 && c4 & 1 == 0 && ((c0 << 3) | (c1
                >> 2)) == x0 && (((c1 & 3) << 6) | (c2 << 1) | (c3 >> 4)) == x1 && (((c3 & 15) << 4)
                | (c4 >> 1)) == x2
        }) by (bit_vector);
        assert(decode_group(group_vals(b)).unwrap() =~= b);
    } else if b.len() == 4 {
        let x1: u8 = b[1];
        let x2: u8 = b[2];
        let x3: u8 = b[3];
        assert({
            let c0: u8 = x0 >> 3;
            let c1: u8 = ((x0 & 7) << 2) | (x1 >> 6);
            let c2: u8 = (x1 >> 1) & 31;
            let c3: u8 = ((x1 & 1) << 4) | (x2 >> 4);
            let c4: u8 = ((x2 & 15) << 1) | (x3 >> 7);
            let c5: u8 = (x3 >> 2) & 31;
            let c6: u8 = (x3 & 3) << 3;
            c0 < 32 && c1 < 32 && c2 < 32 && c3 < 32 && c4 < 32 && c5 < 32 && c6 < 32 && c6 & 7 == 0
                && ((c0 << 3) | (c1 >> 2)) == x0 && (((c1 & 3) << 6) | (c2 << 1) | (c3 >> 4)) == x1
                && (((c3 & 15) << 4) | (c4 >> 1)) == x2 && (((c4 & 1) << 7) | (c5 << 2) | (c6 >> 3))
                == x3
        }) by (bit_vector);
        assert(decode_group(group_vals(b)).unwrap() =~= b);
    } else {
        let x1: u8 = b[1];
        let x2: u8 = b[2];
        let x3: u8 = b[3];
        let x4: u8 = b[4];
        assert({
            let c0: u8 = x0 >> 3;
            let c1: u8 = ((x0 & 7) << 2) | (x1 >> 6);
            let c2: u8 = (x1 >> 1) & 31;
            let c3: u8 = ((x1 & 1) << 4) | (x2 >> 4);
            let c4: u8 = ((x2 & 15) << 1) | (x3 >> 7);
            let c5: u8 = (x3 >> 2) & 31;
            let c6: u8 = ((x3 & 3) << 3) | (x4 >> 5);
            let c7: u8 = x4 & 31;
            c0 < 32 && c1 < 32 && c2 < 32 && c3 < 32 && c4 < 32 && c5 < 32 && c6 < 32 && c7 < 32
                && ((c0 << 3) | (c1 >> 2)) == x0 && (((c1 & 3) << 6) | (c2 << 1) | (c3 >> 4)) == x1
                && (((c3 & 15) << 4) | (c4 >> 1)) == x2 && (((c4 & 1) << 7) | (c5 << 2) | (c6 >> 3))
                == x3 && ((((c6 & 7)) << 5) | c7) == x4
        }) by (bit_vector);
        assert(decode_group(group_vals(b)).unwrap() =~= b);
    }
}

/// Every value produced by the encoder is a five-bit value.
proof fn lemma_encode_vals_bounded(b: Seq<u8>)
    ensures
        forall|i: int| 0 <= i < encode_vals(b).len() ==> #[trigger] encode_vals(b)[i] < 32,
    decreases b.len(),
{
    if b.len() == 0 {
    } else if b.len() <= 5 {
        lemma_group_round_trip(b);
    } else {
        lemma_group_round_trip(b.take(5));
        lemma_encode_vals_bounded(b.skip(5));
        let head = group_vals(b.take(5));
        let rest = encode_vals(b.skip(5));
        assert forall|i: int| 0 <= i < encode_vals(b).len() implies #[trigger] encode_vals(b)[i]
            < 32 by {
            assert(encode_vals(b) == head + rest);
            if i < head.len() {
                assert(encode_vals(b)[i] == head[i]);
            } else {
                assert(encode_vals(b)[i] == rest[i - head.len()]);
            }
        }
    }
}

/// Decoding the encoder's five-bit values gives back the payload.
proof fn lemma_decode_encode_vals(b: Seq<u8>)
    ensures
        decode_vals(encode_vals(b)) == Some(b),
    decreases b.len(),
{
    if b.len() == 0 {
        assert(decode_vals(encode_vals(b)).unwrap() =~= b);
    } else if b.len() < 5 {
        lemma_group_round_trip(b);
    } else if b.len() == 5 {
        lemma_group_round_trip(b);
        let t = encode_vals(b);
        assert(t == group_vals(b));
        assert(t.take(8) =~= t);
        assert(t.skip(8) =~= Seq::<u8>::empty());
        assert(decode_vals(Seq::<u8>::empty()) == Some(Seq::<u8>::empty()));
        assert(decode_vals(t) == Some(b + Seq::<u8>::empty()));
        assert(b + Seq::<u8>::empty() =~= b);
    } else {
        let head = b.take(5);
        let rest = b.skip(5);
        lemma_group_round_trip(head);
        lemma_decode_encode_vals(rest);
        let t = encode_vals(b);
        assert(t == group_vals(head) + encode_vals(rest));
        assert(t.take(8) =~= group_vals(head));
        assert(t.skip(8) =~= encode_vals(rest));
        assert(decode_vals(t.skip(8)) == Some(rest));
        assert(t.len() >= 8);
        assert(decode_vals(t) == Some(head + rest));
        assert(head + rest =~= b);
    }
}

/// Round trip: decoding an encoded payload gives back the payload.
pub proof fn lemma_b32_round_trip(b: Seq<u8>)
    ensures
        spec_decode(spec_encode(b)) == Some(b),
{
    let vs = encode_vals(b);
    let s = spec_encode(b);
    lemma_encode_vals_bounded(b);
    assert forall|i: int| 0 <= i < s.len() implies sym_value(#[trigger] s[i]) is Some by {
        lemma_sym_round_trip(vs[i]);
    }
    assert(sym_values(s) =~= vs) by {
        assert forall|i: int| 0 <= i < s.len() implies sym_values(s)[i] == vs[i] by {
            lemma_sym_round_trip(vs[i]);
        }
    }
    lemma_decode_encode_vals(b);
}

/// `Some(head + rest)` when `o` is `Some(rest)`, else `None`.
pub open spec fn opt_prepend(head: Seq<u8>, o: Option<Seq<u8>>) -> Option<Seq<u8>> {
    match o {
        Some(rest) => Some(head + rest),
        None => None,
    }
}

proof fn lemma_opt_prepend_empty(o: Option<Seq<u8>>)
    ensures
        opt_prepend(Seq::empty(), o) == o,
{
    match o {
        Some(rest) => {
            assert(Seq::empty() + rest =~= rest);
        },
        None => {},
    }
}

proof fn lemma_opt_prepend_assoc(a: Seq<u8>, b: Seq<u8>, o: Option<Seq<u8>>)
    ensures
        opt_prepend(a, opt_prepend(b, o)) == opt_prepend(a + b, o),
{
    match o {
        Some(rest) => {
            assert(a + (b + rest) =~= (a + b) + rest);
        },
        None => {},
    }
}

/// A value sequence whose length leaves remainder 1, 3 or 6 by 8 decodes to
/// nothing.
proof fn lemma_decode_vals_bad_len(t: Seq<u8>)
    requires
        t.len() % 8 == 1 || t.len() % 8 == 3 || t.len() % 8 == 6,
    ensures
        decode_vals(t) is None,
    decreases t.len(),
{
    if t.len() >= 8 {
        lemma_decode_vals_bad_len(t.skip(8));
    }
}

/// Encoded text is ASCII: every symbol byte stands below 128.
pub proof fn lemma_encode_ascii(b: Seq<u8>)
    ensures
        forall|i: int| 0 <= i < spec_encode(b).len() ==> #[trigger] spec_encode(b)[i] < 128,
{
    lemma_encode_vals_bounded(b);
    assert forall|i: int| 0 <= i < spec_encode(b).len() implies #[trigger] spec_encode(b)[i]
        < 128 by {
        assert(spec_encode(b)[i] == sym_char(encode_vals(b)[i]));
        assert(encode_vals(b)[i] < 32);
    }
}

/// Compute the five-bit values that encode payload `b`.
fn encode_vals_exec(b: &[u8]) -> (vals: Vec<u8>)
    ensures
        vals@ == encode_vals(b@),
{
    let n: usize = b.len();
    let mut vals: Vec<u8> = Vec::new();
    let mut i: usize = 0;
    proof {
        assert(b@.skip(0) =~= b@);
    }
    while n - i >= 5
        invariant
            i <= n,
            n == b@.len(),
            encode_vals(b@) == vals@ + encode_vals(b@.skip(i as int)),
        decreases n - i,
    {
        let x0: u8 = b[i];
        let x1: u8 = b[i + 1];
        let x2: u8 = b[i + 2];
        let x3: u8 = b[i + 3];
        let x4: u8 = b[i + 4];
        let ghost prev_vals = vals@;
        vals.push(x0 >> 3);
        vals.push(((x0 & 7) << 2) | (x1 >> 6));
        vals.push((x1 >> 1) & 31);
        vals.push(((x1 & 1) << 4) | (x2 >> 4));
        vals.push(((x2 & 15) << 1) | (x3 >> 7));
        vals.push((x3 >> 2) & 31);
        vals.push(((x3 & 3) << 3) | (x4 >> 5));
        vals.push(x4 & 31);
        proof {
            let rem = b@.skip(i as int);
            let grp = vals@.skip(prev_vals.len() as int);
            assert(rem.take(5) =~= b@.subrange(i as int, i + 5));
            assert(rem.skip(5) =~= b@.skip(i + 5));
            assert(grp =~= group_vals(rem.take(5)));
            if rem.len() == 5 {
                assert(rem.take(5) =~= rem);
                assert(b@.skip(i + 5) =~= Seq::<u8>::empty());
                assert(encode_vals(Seq::<u8>::empty()) == Seq::<u8>::empty());
                assert(grp + encode_vals(b@.skip(i + 5)) =~= grp);
                assert(encode_vals(rem) == grp);
            } else {
                assert(encode_vals(rem) == group_vals(rem.take(5)) + encode_vals(rem.skip(5)));
            }
            assert(prev_vals + (grp + encode_vals(b@.skip(i + 5))) =~= (prev_vals + grp)
                + encode_vals(b@.skip(i + 5)));
            assert(prev_vals + grp =~= vals@);
            assert(encode_vals(b@) == vals@ + encode_vals(b@.skip(i + 5)));
        }
        i = i + 5;
    }
    let ghost prev_vals = vals@;
    if i < n {
        let x0: u8 = b[i];
        if n - i == 1 {
            vals.push(x0 >> 3);
            vals.push((x0 & 7) << 2);
        } else {
            let x1: u8 = b[i + 1];
            if n - i == 2 {
                vals.push(x0 >> 3);
                vals.push(((x0 & 7) << 2) | (x1 >> 6));
                vals.push((x1 >> 1) & 31);
                vals.push((x1 & 1) << 4);
            } else {
                let x2: u8 = b[i + 2];
                if n - i == 3 {
                    vals.push(x0 >> 3);
                    vals.push(((x0 & 7) << 2) | (x1 >> 6));
                    vals.push((x1 >> 1) & 31);
                    vals.push(((x1 & 1) << 4) | (x2 >> 4));
                    vals.push((x2 & 15) << 1);
                } else {
                    let x3: u8 = b[i + 3];
                    vals.push(x0 >> 3);
                    vals.push(((x0 & 7) << 2) | (x1 >> 6));
                    vals.push((x1 >> 1) & 31);
                    vals.push(((x1 & 1) << 4) | (x2 >> 4));
                    vals.push(((x2 & 15) << 1) | (x3 >> 7));
                    vals.push((x3 >> 2) & 31);
                    vals.push((x3 & 3) << 3);
                }
            }
        }
        proof {
            let rem = b@.skip(i as int);
            let grp = vals@.skip(prev_vals.len() as int);
            assert(grp =~= group_vals(rem));
            assert(encode_vals(rem) == group_vals(rem));
            assert(prev_vals + grp =~= vals@);
            assert(encode_vals(b@) =~= vals@);
        }
    } else {
        proof {
            assert(b@.skip(i as int) =~= Seq::<u8>::empty());
            assert(encode_vals(Seq::<u8>::empty()) == Seq::<u8>::empty());
            assert(vals@ + Seq::<u8>::empty() =~= vals@);
            assert(encode_vals(b@) =~= vals@);
        }
    }
    vals
}

/// Encode a payload into symbol text, returned as ASCII bytes.
pub fn encode(b: &[u8]) -> (r: Vec<u8>)
    ensures
        r@ == spec_encode(b@),
{
    let vals = encode_vals_exec(b);
    proof {
        lemma_encode_vals_bounded(b@);
    }
    let m: usize = vals.len();
    let mut out: Vec<u8> = Vec::new();
    let mut j: usize = 0;
    while j < m
        invariant
            j <= m,
            m == vals@.len(),
            vals@ == encode_vals(b@),
            forall|k: int| 0 <= k < m ==> #[trigger] vals@[k] < 32,
            out@ == vals@.take(j as int).map_values(|v: u8| sym_char(v)),
        decreases m - j,
    {
        let v: u8 = vals[j];
        let c: u8 = if v < 26 {
            97 + v
        } else {
            24 + v
        };
        out.push(c);
        proof {
            assert(vals@.take(j + 1) =~= vals@.take(j as int).push(v));
            assert(vals@.take(j + 1).map_values(|vv: u8| sym_char(vv)) =~= vals@.take(
                j as int,
            ).map_values(|vv: u8| sym_char(vv)).push(sym_char(v)));
        }
        j = j + 1;
    }
    proof {
        assert(vals@.take(m as int) =~= vals@);
    }
    out
}

/// Decode symbol text (as ASCII bytes) back into its payload, or `None`
/// when the text is not a well-formed encoding.
#[verifier::rlimit(60)]
pub fn decode(s: &[u8]) -> (r: Option<Vec<u8>>)
    ensures
        match r {
            Some(b) => spec_decode(s@) == Some(b@),
            None => spec_decode(s@) is None,
        },
{
    let n: usize = s.len();
    let mut vals: Vec<u8> = Vec::new();
    let mut i: usize = 0;
    while i < n
        invariant
            i <= n,
            n == s@.len(),
            vals@.len() == i,
            forall|k: int| 0 <= k < i ==> sym_value(#[trigger] s@[k]) is Some,
            forall|k: int| 0 <= k < i ==> vals@[k] == sym_value(s@[k]).unwrap_or(0),
            forall|k: int| 0 <= k < i ==> #[trigger] vals@[k] < 32,
        decreases n - i,
    {
        let c: u8 = s[i];
        let v: u8 = if 97 <= c && c <= 122 {
            c - 97
        } else if 65 <= c && c <= 90 {
            c - 65
        } else if 50 <= c && c <= 55 {
            c - 24
        } else {
            proof {
                assert(sym_value(s@[i as int]) is None);
            }
            return None;
        };
        vals.push(v);
        i = i + 1;
    }
    proof {
        assert(vals@ =~= sym_values(s@));
    }
    let m: usize = vals.len();
    let r: usize = m % 8;
    if r == 1 || r == 3 || r == 6 {
        proof {
            lemma_decode_vals_bad_len(vals@);
        }
        return None;
    }
    let mut out: Vec<u8> = Vec::new();
    let mut j: usize = 0;
    proof {
        assert(vals@.skip(0) =~= vals@);
        lemma_opt_prepend_empty(decode_vals(vals@));
    }
    while m - j >= 8
        invariant
            j <= m,
            j % 8 == 0,
            m % 8 == r,
            !(r == 1 || r == 3 || r == 6),
            m == vals@.len(),
            vals@ == sym_values(s@),
            all_syms(s@),
            forall|k: int| 0 <= k < m ==> #[trigger] vals@[k] < 32,
            opt_prepend(out@, decode_vals(vals@.skip(j as int))) == decode_vals(vals@),
        decreases m - j,
    {
        let c0: u8 = vals[j];
        let c1: u8 = vals[j + 1];
        let c2: u8 = vals[j + 2];
        let c3: u8 = vals[j + 3];
        let c4: u8 = vals[j + 4];
        let c5: u8 = vals[j + 5];
        let c6: u8 = vals[j + 6];
        let c7: u8 = vals[j + 7];
        let ghost prev_out = out@;
        out.push((c0 << 3) | (c1 >> 2));
        out.push(((c1 & 3) << 6) | (c2 << 1) | (c3 >> 4));
        out.push(((c3 & 15) << 4) | (c4 >> 1));
        out.push(((c4 & 1) << 7) | (c5 << 2) | (c6 >> 3));
        out.push(((c6 & 7) << 5) | c7);
        proof {
            let rem = vals@.skip(j as int);
            let piece = out@.skip(prev_out.len() as int);
            assert(rem.take(8) =~= vals@.subrange(j as int, j + 8));
            assert(rem.skip(8) =~= vals@.skip(j + 8));
            assert(decode_group(rem.take(8)) == Some(piece)) by {
                assert(decode_group(rem.take(8)).unwrap() =~= piece);
            }
            assert(decode_vals(rem) == opt_prepend(piece, decode_vals(vals@.skip(j + 8))));
            lemma_opt_prepend_assoc(prev_out, piece, decode_vals(vals@.skip(j + 8)));
            assert(prev_out + piece =~= out@);
            assert(opt_prepend(out@, decode_vals(vals@.skip(j + 8))) == decode_vals(vals@));
        }
        j = j + 8;
    }
    let rem: usize = m - j;
    let ghost tail = vals@.skip(j as int);
    let ghost prev_out = out@;
    if rem == 0 {
        proof {
            assert(tail =~= Seq::<u8>::empty());
            assert(decode_vals(Seq::<u8>::empty()) == Some(Seq::<u8>::empty()));
            assert(out@ + Seq::<u8>::empty() =~= out@);
        }
        return Some(out);
    }
    if rem == 2 {
        let c0: u8 = vals[j];
        let c1: u8 = vals[j + 1];
        proof {
            assert(tail[0] == c0 && tail[1] == c1);
        }
        if c1 & 3 != 0 {
            proof {
                assert(decode_vals(tail) is None);
            }
            return None;
        }
        out.push((c0 << 3) | (c1 >> 2));
        proof {
            assert(decode_group(tail).unwrap() =~= out@.skip(prev_out.len() as int));
            assert(out@.take(prev_out.len() as int) =~= prev_out);
            finish_tail(vals@, j as int, out@, prev_out);
        }
        return Some(out);
    }
    if rem == 4 {
        let c0: u8 = vals[j];
        let c1: u8 = vals[j + 1];
        let c2: u8 = vals[j + 2];
        let c3: u8 = vals[j + 3];
        proof {
            assert(tail[0] == c0 && tail[1] == c1 && tail[2] == c2 && tail[3] == c3);
        }
        if c3 & 15 != 0 {
            proof {
                assert(decode_vals(tail) is None);
            }
            return None;
        }
        out.push((c0 << 3) | (c1 >> 2));
        out.push(((c1 & 3) << 6) | (c2 << 1) | (c3 >> 4));
        proof {
            assert(decode_group(tail).unwrap() =~= out@.skip(prev_out.len() as int));
            assert(out@.take(prev_out.len() as int) =~= prev_out);
            finish_tail(vals@, j as int, out@, prev_out);
        }
        return Some(out);
    }
    if rem == 5 {
        let c0: u8 = vals[j];
        let c1: u8 = vals[j + 1];
        let c2: u8 = vals[j + 2];
        let c3: u8 = vals[j + 3];
        let c4: u8 = vals[j + 4];
        proof {
            assert(tail[0] == c0 && tail[1] == c1 && tail[2] == c2 && tail[3] == c3 && tail[4]
                == c4);
        }
        if c4 & 1 != 0 {
            proof {
                assert(decode_vals(tail) is None);
            }
            return None;
        }
        out.push((c0 << 3) | (c1 >> 2));
        out.push(((c1 & 3) << 6) | (c2 << 1) | (c3 >> 4));
        out.push(((c3 & 15) << 4) | (c4 >> 1));
        proof {
            assert(decode_group(tail).unwrap() =~= out@.skip(prev_out.len() as int));
            assert(out@.take(prev_out.len() as int) =~= prev_out);
            finish_tail(vals@, j as int, out@, prev_out);
        }
        return Some(out);
    }
    let c0: u8 = vals[j];
    let c1: u8 = vals[j + 1];
    let c2: u8 = vals[j + 2];
    let c3: u8 = vals[j + 3];
    let c4: u8 = vals[j + 4];
    let c5: u8 = vals[j + 5];
    let c6: u8 = vals[j + 6];
    proof {
        assert(tail[0] == c0 && tail[1] == c1 && tail[2] == c2 && tail[3] == c3 && tail[4] == c4
            && tail[5] == c5 && tail[6] == c6);
    }
    if c6 & 7 != 0 {
        proof {
            assert(decode_vals(tail) is None);
        }
        return None;
    }
    out.push((c0 << 3) | (c1 >> 2));
    out.push(((c1 & 3) << 6) | (c2 << 1) | (c3 >> 4));
    out.push(((c3 & 15) << 4) | (c4 >> 1));
    out.push(((c4 & 1) << 7) | (c5 << 2) | (c6 >> 3));
    proof {
        assert(decode_group(tail).unwrap() =~= out@.skip(prev_out.len() as int));
        assert(out@.take(prev_out.len() as int) =~= prev_out);
        finish_tail(vals@, j as int, out@, prev_out);
    }
    Some(out)
}

/// Finishing step of the decoder: the decoded final group closes the sum.
proof fn finish_tail(vals: Seq<u8>, j: int, out: Seq<u8>, prev: Seq<u8>)
    requires
        0 <= j <= vals.len(),
        prev.len() <= out.len(),
        out.take(prev.len() as int) == prev,
        decode_vals(vals) == opt_prepend(prev, decode_vals(vals.skip(j))),
        decode_vals(vals.skip(j)) is Some,
        decode_vals(vals.skip(j)).unwrap() == out.skip(prev.len() as int),
    ensures
        decode_vals(vals) == Some(out),
{
    assert(out.take(prev.len() as int) + out.skip(prev.len() as int) =~= out);
}

} // verus!
