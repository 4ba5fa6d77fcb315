//! Topic and peer identifiers.
//!
//! Both kinds of identifier are opaque 256-bit values. Peer identifiers are
//! kept in strictly ascending byte order wherever a set of them is stored,
//! so that a sequence of them is a faithful picture of an ordered set.

use vstd::prelude::*;
use crate::utils::string_from_utf8;

verus! {

/// Strict byte-wise lexicographic order.
pub open spec fn lex_lt(a: Seq<u8>, b: Seq<u8>) -> bool
    decreases a.len(),
{
    if a.len() == 0 {
        b.len() > 0
    } else if b.len() == 0 {
        false
    } else if a[0] < b[0] {
        true
    } else if a[0] > b[0] {
        false
    } else {
        lex_lt(a.drop_first(), b.drop_first())
    }
}

/// Two sequences of one length are ordered one way or the other, or equal.
pub proof fn lemma_lex_trichotomy(a: Seq<u8>, b: Seq<u8>)
    requires
        a.len() == b.len(),
    ensures
        lex_lt(a, b) || lex_lt(b, a) || a == b,
    decreases a.len(),
{
    if a.len() == 0 {
        assert(a =~= b);
    } else if a[0] == b[0] {
        lemma_lex_trichotomy(a.drop_first(), b.drop_first());
        if a.drop_first() == b.drop_first() {
            assert forall|i: int| 0 <= i < a.len() implies a[i] == b[i] by {
                if i > 0 {
                    assert(a[i] == a.drop_first()[i - 1]);
                    assert(b[i] == b.drop_first()[i - 1]);
                }
            }
            assert(a =~= b);
        }
    }
}

/// At most one of the three orderings holds.
pub proof fn lemma_lex_asymmetric(a: Seq<u8>, b: Seq<u8>)
    requires
        lex_lt(a, b),
    ensures
        !lex_lt(b, a),
        a != b,
    decreases a.len(),
{
    if a.len() != 0 && b.len() != 0 && a[0] == b[0] {
        lemma_lex_asymmetric(a.drop_first(), b.drop_first());
        assert(a != b) by {
            if a == b {
                assert(a.drop_first() == b.drop_first());
            }
        }
    }
}

/// The order passes through a middle element.
pub proof fn lemma_lex_transitive(a: Seq<u8>, b: Seq<u8>, c: Seq<u8>)
    requires
        lex_lt(a, b),
        lex_lt(b, c),
    ensures
        lex_lt(a, c),
    decreases a.len(),
{
    if a.len() != 0 && b.len() != 0 && c.len() != 0 {
        if a[0] == b[0] && b[0] == c[0] {
            lemma_lex_transitive(a.drop_first(), b.drop_first(), c.drop_first());
        }
    }
}

/// Sequences that agree up to `i` and differ at `i` order by the byte there.
proof fn lemma_lex_from_diff(a: Seq<u8>, b: Seq<u8>, i: int)
    requires
        a.len() == b.len(),
        0 <= i < a.len(),
        forall|j: int| 0 <= j < i ==> a[j] == b[j],
        a[i] < b[i],
    ensures
        lex_lt(a, b),
    decreases i,
{
    if i > 0 {
        lemma_lex_from_diff(a.drop_first(), b.drop_first(), i - 1);
    }
}

/// The identifier of a chat topic: 32 opaque bytes.
#[derive(Clone, Debug, PartialEq, Eq, Hash)]
pub struct TopicId {
    pub bytes: Vec<u8>,
}

impl View for TopicId {
    type V = Seq<u8>;

    open spec fn view(&self) -> Seq<u8> {
        self.bytes@
    }
}

impl TopicId {
    /// The identifier holds exactly 32 bytes.
    pub open spec fn wf(&self) -> bool {
        self@.len() == 32
    }

    /// Create from a byte vector; refused unless it holds 32 bytes.
    pub fn from_bytes(bytes: Vec<u8>) -> (r: Option<TopicId>)
        ensures
            match r {
                Some(id) => bytes@.len() == 32 && id@ == bytes@ && id.wf(),
                None => bytes@.len() != 32,
            },
    {
        if bytes.len() == 32 {
            Some(TopicId { bytes })
        } else {
            None
        }
    }

    /// Get as byte slice.
    pub fn as_bytes(&self) -> (r: &Vec<u8>)
        ensures
            r@ == self@,
    {
        &self.bytes
    }

    /// A copy whose bytes are the same.
    pub fn duplicate(&self) -> (r: TopicId)
        ensures
            r@ == self@,
    {
        TopicId { bytes: copy_bytes(&self.bytes) }
    }

    /// The lower-case hexadecimal form, two digits per byte.
    pub fn to_hex(&self) -> (r: String)
        ensures
            vstd::utf8::encode_utf8(r@) == hex_bytes_of(self@),
    {
        hex_string(&self.bytes)
    }
}

/// The identifier of a peer node: 32 opaque bytes.
#[derive(Clone, Debug, PartialEq, Eq, Hash)]
pub struct NodeId {
    pub bytes: Vec<u8>,
}

impl View for NodeId {
    type V = Seq<u8>;

    open spec fn view(&self) -> Seq<u8> {
        self.bytes@
    }
}

impl NodeId {
    /// The identifier holds exactly 32 bytes.
    pub open spec fn wf(&self) -> bool {
        self@.len() == 32
    }

    /// Create from a byte vector; refused unless it holds 32 bytes.
    pub fn from_bytes(bytes: Vec<u8>) -> (r: Option<NodeId>)
        ensures
            match r {
                Some(id) => bytes@.len() == 32 && id@ == bytes@ && id.wf(),
                None => bytes@.len() != 32,
            },
    {
        if bytes.len() == 32 {
            Some(NodeId { bytes })
        } else {
            None
        }
    }

    /// Get as byte slice.
    pub fn as_bytes(&self) -> (r: &Vec<u8>)
        ensures
            r@ == self@,
    {
        &self.bytes
    }

    /// A copy whose bytes are the same.
    pub fn duplicate(&self) -> (r: NodeId)
        ensures
            r@ == self@,
    {
        NodeId { bytes: copy_bytes(&self.bytes) }
    }

    /// The lower-case hexadecimal form, two digits per byte.
    pub fn to_hex(&self) -> (r: String)
        ensures
            vstd::utf8::encode_utf8(r@) == hex_bytes_of(self@),
    {
        hex_string(&self.bytes)
    }
}

/// Copy a byte vector.
pub fn copy_bytes(b: &Vec<u8>) -> (r: Vec<u8>)
    ensures
        r@ == b@,
{
    let mut out: Vec<u8> = Vec::new();
    let n: usize = b.len();
    let mut i: usize = 0;
    while i < n
        invariant
            i <= n,
            n == b@.len(),
            out@ == b@.take(i as int),
        decreases n - i,
    {
        out.push(b[i]);
        proof {
            assert(b@.take(i + 1) =~= b@.take(i as int).push(b@[i as int]));
        }
        i = i + 1;
    }
    proof {
        assert(b@.take(n as int) =~= b@);
    }
    out
}

/// The byte sequences of a sequence of peer identifiers.
pub open spec fn ids_view(v: Seq<NodeId>) -> Seq<Seq<u8>> {
    v.map_values(|n: NodeId| n@)
}

/// Whether `id` occurs in `s`.
pub open spec fn id_in(s: Seq<Seq<u8>>, id: Seq<u8>) -> bool {
    exists|i: int| 0 <= i < s.len() && s[i] == id
}

/// Strictly ascending, hence free of repeats: a picture of an ordered set.
pub open spec fn sorted_ids(s: Seq<Seq<u8>>) -> bool {
    forall|i: int, j: int| 0 <= i < j < s.len() ==> lex_lt(#[trigger] s[i], #[trigger] s[j])
}

/// Every identifier holds 32 bytes and the whole is strictly ascending.
pub open spec fn ids_wf(s: Seq<Seq<u8>>) -> bool {
    &&& forall|i: int| 0 <= i < s.len() ==> (#[trigger] s[i]).len() == 32
    &&& sorted_ids(s)
}

/// `id` put into its place in the ascending sequence `s`; already-present
/// identifiers are not repeated.
pub open spec fn spec_insert(s: Seq<Seq<u8>>, id: Seq<u8>) -> Seq<Seq<u8>>
    decreases s.len(),
{
    if s.len() == 0 {
        seq![id]
    } else if lex_lt(id, s[0]) {
        seq![id] + s
    } else if id == s[0] {
        s
    } else {
        seq![s[0]] + spec_insert(s.drop_first(), id)
    }
}

/// What insertion does: the result is ascending, holds exactly the old
/// identifiers and `id`, and grows only when `id` was absent.
pub proof fn lemma_insert_props(s: Seq<Seq<u8>>, id: Seq<u8>)
    requires
        ids_wf(s),
        id.len() == 32,
    ensures
        ids_wf(spec_insert(s, id)),
        forall|x: Seq<u8>| id_in(spec_insert(s, id), x) <==> id_in(s, x) || x == id,
        id_in(s, id) ==> spec_insert(s, id) == s,
        !id_in(s, id) ==> spec_insert(s, id).len() == s.len() + 1,
        spec_insert(s, id).len() >= s.len(),
    decreases s.len(),
{
    let r = spec_insert(s, id);
    if s.len() == 0 {
        assert(id_in(r, id)) by {
            assert(r[0] == id);
        }
    } else if lex_lt(id, s[0]) {
        assert(forall|i: int| 0 <= i < s.len() ==> r[i + 1] == s[i]);
        assert(sorted_ids(r)) by {
            assert forall|i: int, j: int| 0 <= i < j < r.len() implies lex_lt(
                #[trigger] r[i],
                #[trigger] r[j],
            ) by {
                if i == 0 {
                    assert(r[0] == id && r[j] == s[j - 1]);
                    if j > 1 {
                        assert(lex_lt(s[0], s[j - 1]));
                        lemma_lex_transitive(id, s[0], s[j - 1]);
                    }
                } else {
                    assert(r[i] == s[i - 1] && r[j] == s[j - 1]);
                }
            }
        }
        assert(!id_in(s, id)) by {
            lemma_lex_asymmetric(id, s[0]);
            assert forall|i: int| 0 <= i < s.len() implies s[i] != id by {
                if i > 0 {
                    lemma_sorted_first_least(s, i);
                    lemma_lex_transitive(id, s[0], s[i]);
                    lemma_lex_asymmetric(id, s[i]);
                }
            }
        }
        assert(forall|x: Seq<u8>| id_in(s, x) ==> id_in(r, x)) by {
            assert(forall|i: int| 0 <= i < s.len() ==> r[i + 1] == s[i]);
        }
        assert(id_in(r, id)) by {
            assert(r[0] == id);
        }
        assert(forall|x: Seq<u8>|
            id_in(r, x) ==> id_in(s, x) || x == id) by {
            assert forall|i: int| 0 <= i < r.len() && r[i] != id implies id_in(s, r[i]) by {
                assert(r[i] == s[i - 1]);
            }
        }
    } else if id == s[0] {
        assert(id_in(s, id)) by {
            assert(s[0] == id);
        }
    } else {
        lemma_lex_trichotomy(id, s[0]);
        assert(lex_lt(s[0], id));
        let tail = s.drop_first();
        assert(ids_wf(tail)) by {
            assert(forall|i: int| 0 <= i < tail.len() ==> tail[i] == s[i + 1]);
        }
        lemma_insert_props(tail, id);
        let rt = spec_insert(tail, id);
        assert(r == seq![s[0]] + rt);
        assert(r[0] == s[0]);
        assert(forall|i: int| 0 <= i < rt.len() ==> r[i + 1] == rt[i]);
        assert(sorted_ids(r)) by {
            assert forall|i: int, j: int| 0 <= i < j < r.len() implies lex_lt(
                #[trigger] r[i],
                #[trigger] r[j],
            ) by {
                if i == 0 {
                    assert(r[j] == rt[j - 1]);
                    assert(id_in(rt, rt[j - 1])) by {
                        assert(rt[j - 1] == rt[j - 1]);
                    }
                    if rt[j - 1] == id {
                    } else {
                        assert(id_in(tail, rt[j - 1]));
                        let k = choose|k: int| 0 <= k < tail.len() && tail[k] == rt[j - 1];
                        assert(tail[k] == s[k + 1]);
                        assert(lex_lt(s[0], s[k + 1]));
                    }
                } else {
                    assert(r[i] == rt[i - 1] && r[j] == rt[j - 1]);
                }
            }
        }
        assert(!id_in(s, id) ==> !id_in(tail, id)) by {
            assert(forall|i: int| 0 <= i < tail.len() ==> tail[i] == s[i + 1]);
        }
        assert(id_in(tail, id) ==> id_in(s, id)) by {
            assert(forall|i: int| 0 <= i < tail.len() ==> tail[i] == s[i + 1]);
        }
        if id_in(tail, id) {
            assert(rt == tail);
            assert(r =~= s);
        } else {
            assert(s[0] != id);
            assert(!id_in(s, id)) by {
                assert forall|i: int| 0 <= i < s.len() implies s[i] != id by {
                    if i > 0 {
                        assert(tail[i - 1] == s[i]);
                    }
                }
            }
        }
        assert(forall|x: Seq<u8>|
            id_in(r, x) ==> id_in(s, x) || x == id) by {
            assert forall|i: int|
                0 <= i < r.len() && r[i] != id implies id_in(s, r[i]) by {
                if i == 0 {
                    assert(r[0] == s[0]);
                } else {
                    assert(r[i] == rt[i - 1]);
                    assert(id_in(rt, r[i]));
                    if id_in(tail, r[i]) {
                        let k = choose|k: int| 0 <= k < tail.len() && tail[k] == r[i];
                        assert(s[k + 1] == r[i]);
                    }
                }
            }
        }
        assert(forall|x: Seq<u8>| id_in(s, x) || x == id ==> id_in(r, x)) by {
            assert forall|x: Seq<u8>| id_in(s, x) || x == id implies id_in(r, x) by {
                if x == id || id_in(tail, x) {
                    assert(id_in(rt, x));
                    let k = choose|k: int| 0 <= k < rt.len() && rt[k] == x;
                    assert(r[k + 1] == x);
                } else {
                    let k = choose|k: int| 0 <= k < s.len() && s[k] == x;
                    if k == 0 {
                        assert(r[0] == x);
                    } else {
                        assert(tail[k - 1] == x);
                    }
                }
            }
        }
    }
}

/// In an ascending sequence the first element is below every later one.
proof fn lemma_sorted_first_least(s: Seq<Seq<u8>>, i: int)
    requires
        sorted_ids(s),
        0 < i < s.len(),
    ensures
        lex_lt(s[0], s[i]),
    decreases i,
{
    if i > 1 {
        lemma_sorted_first_least(s, i - 1);
        lemma_lex_transitive(s[0], s[i - 1], s[i]);
    }
}

/// Elements of an ascending sequence order by their places.
pub proof fn lemma_sorted_below(s: Seq<Seq<u8>>, i: int, j: int)
    requires
        sorted_ids(s),
        0 <= i < j < s.len(),
    ensures
        lex_lt(s[i], s[j]),
    decreases j - i,
{
    if j > i + 1 {
        lemma_sorted_below(s, i, j - 1);
        lemma_lex_transitive(s[i], s[j - 1], s[j]);
    }
}

/// Inserting above every element appends.
pub proof fn lemma_insert_all_below(s: Seq<Seq<u8>>, id: Seq<u8>)
    requires
        forall|j: int| 0 <= j < s.len() ==> lex_lt(#[trigger] s[j], id),
    ensures
        spec_insert(s, id) == s + seq![id],
    decreases s.len(),
{
    lemma_insert_skip(s, id, s.len() as int);
    assert(s.skip(s.len() as int) =~= Seq::<Seq<u8>>::empty());
    assert(spec_insert(s.skip(s.len() as int), id) =~= seq![id]);
    assert(s.take(s.len() as int) =~= s);
}

/// Insertion passes over a prefix of elements below `id`.
proof fn lemma_insert_skip(s: Seq<Seq<u8>>, id: Seq<u8>, i: int)
    requires
        0 <= i <= s.len(),
        forall|j: int| 0 <= j < i ==> lex_lt(#[trigger] s[j], id),
    ensures
        spec_insert(s, id) == s.take(i) + spec_insert(s.skip(i), id),
    decreases i,
{
    if i == 0 {
        assert(s.skip(0) =~= s);
        assert(s.take(0) + spec_insert(s, id) =~= spec_insert(s, id));
    } else {
        assert(lex_lt(s[0], id));
        lemma_lex_asymmetric(s[0], id);
        let tail = s.drop_first();
        assert(forall|j: int| 0 <= j < i - 1 ==> tail[j] == s[j + 1]);
        lemma_insert_skip(tail, id, i - 1);
        assert(tail.take(i - 1) =~= s.take(i).drop_first());
        assert(tail.skip(i - 1) =~= s.skip(i));
        assert(seq![s[0]] + (tail.take(i - 1) + spec_insert(tail.skip(i - 1), id)) =~= s.take(i)
            + spec_insert(s.skip(i), id));
    }
}

/// Compare two identifiers byte-wise: -1 below, 0 equal, 1 above.
pub fn id_cmp(a: &NodeId, b: &NodeId) -> (r: i8)
    requires
        a.wf(),
        b.wf(),
    ensures
        r == -1i8 || r == 0i8 || r == 1i8,
        r == -1i8 <==> lex_lt(a@, b@),
        r == 0i8 <==> a@ == b@,
        r == 1i8 <==> lex_lt(b@, a@),
{
    let av = a.as_bytes();
    let bv = b.as_bytes();
    let mut i: usize = 0;
    while i < 32
        invariant
            i <= 32,
            av@ == a@,
            bv@ == b@,
            a@.len() == 32,
            b@.len() == 32,
            forall|j: int| 0 <= j < i ==> a@[j] == b@[j],
        decreases 32 - i,
    {
        let x: u8 = av[i];
        let y: u8 = bv[i];
        if x < y {
            proof {
                lemma_lex_from_diff(a@, b@, i as int);
                lemma_lex_asymmetric(a@, b@);
            }
            return -1;
        }
        if x > y {
            proof {
                lemma_lex_from_diff(b@, a@, i as int);
                lemma_lex_asymmetric(b@, a@);
            }
            return 1;
        }
        i = i + 1;
    }
    proof {
        assert(a@ =~= b@);
        lemma_lex_irreflexive(a@);
    }
    0
}

/// Nothing stands below itself.
proof fn lemma_lex_irreflexive(a: Seq<u8>)
    ensures
        !lex_lt(a, a),
    decreases a.len(),
{
    if a.len() > 0 {
        lemma_lex_irreflexive(a.drop_first());
    }
}

/// Put `id` into its place in the ascending vector `v`.
pub fn insert_id(v: &mut Vec<NodeId>, id: NodeId)
    requires
        ids_wf(ids_view(old(v)@)),
        id.wf(),
    ensures
        ids_view(final(v)@) == spec_insert(ids_view(old(v)@), id@),
        ids_wf(ids_view(final(v)@)),
{
    let ghost s = ids_view(v@);
    proof {
        lemma_insert_props(s, id@);
    }
    let n: usize = v.len();
    let mut i: usize = 0;
    while i < n
        invariant
            i <= n,
            n == v@.len(),
            s == ids_view(v@),
            s == ids_view(old(v)@),
            ids_wf(s),
            id@.len() == 32,
            forall|j: int| 0 <= j < i ==> lex_lt(#[trigger] s[j], id@),
        decreases n - i,
    {
        proof {
            assert(s[i as int] == v@[i as int]@);
        }
        let c: i8 = id_cmp(&v[i], &id);
        if c == 0 {
            proof {
                lemma_lex_irreflexive(id@);
                lemma_insert_skip(s, id@, i as int);
                assert(s.skip(i as int)[0] == s[i as int]);
                assert(spec_insert(s.skip(i as int), id@) == s.skip(i as int));
                assert(s.take(i as int) + s.skip(i as int) =~= s);
            }
            return ;
        }
        if c == 1 {
            proof {
                lemma_insert_props(s, id@);
                lemma_insert_skip(s, id@, i as int);
                assert(s.skip(i as int)[0] == s[i as int]);
                assert(spec_insert(s.skip(i as int), id@) == seq![id@] + s.skip(i as int));
            }
            v.insert(i, id);
            proof {
                assert(ids_view(v@) =~= s.take(i as int) + (seq![id@] + s.skip(i as int)));
            }
            return ;
        }
        i = i + 1;
    }
    proof {
        lemma_insert_props(s, id@);
        lemma_insert_skip(s, id@, n as int);
        assert(s.skip(n as int) =~= Seq::<Seq<u8>>::empty());
        assert(spec_insert(s.skip(n as int), id@) =~= seq![id@]);
        assert(s.take(n as int) =~= s);
    }
    v.push(id);
    proof {
        assert(ids_view(v@) =~= s + seq![id@]);
        assert(s + seq![id@] =~= s.take(s.len() as int) + spec_insert(
            s.skip(s.len() as int),
            id@,
        ));
    }
}

/// The lower-case hexadecimal digit for the four-bit value `v`.
pub open spec fn hex_digit(v: u8) -> u8
    recommends
        v < 16,
{
    if v < 10 {
        (48 + v) as u8  // '0' + v
    } else {
        (87 + v) as u8  // 'a' + (v - 10)
    }
}

/// The lower-case hexadecimal bytes of `b`, two digits per byte, high
/// nibble first.
pub open spec fn hex_bytes_of(b: Seq<u8>) -> Seq<u8> {
    Seq::new(
        2 * b.len(),
        |i: int|
            if i % 2 == 0 {
                hex_digit(b[i / 2] >> 4)
            } else {
                hex_digit(b[i / 2] & 15)
            },
    )
}

/// Render bytes as a lower-case hexadecimal string.
pub fn hex_string(b: &Vec<u8>) -> (r: String)
    ensures
        vstd::utf8::encode_utf8(r@) == hex_bytes_of(b@),
{
    let n: usize = b.len();
    let mut out: Vec<u8> = Vec::new();
    let mut i: usize = 0;
    while i < n
        invariant
            i <= n,
            n == b@.len(),
            out@ =~= hex_bytes_of(b@.take(i as int)),
        decreases n - i,
    {
        let x: u8 = b[i];
        let hi: u8 = x >> 4;
        let lo: u8 = x & 15;
        proof {
            assert(hi < 16 && lo < 16) by (bit_vector)
                requires
                    hi == x >> 4 && lo == x & 15,
            ;
        }
        let d0: u8 = if hi < 10 {
            48 + hi
        } else {
            87 + hi
        };
        let d1: u8 = if lo < 10 {
            48 + lo
        } else {
            87 + lo
        };
        out.push(d0);
        out.push(d1);
        proof {
            assert(out@ =~= hex_bytes_of(b@.take(i + 1)));
        }
        i = i + 1;
    }
    proof {
        assert(b@.take(n as int) =~= b@);
        assert forall|k: int| 0 <= k < out@.len() implies out@[k] < 128 by {
            assert(out@[k] == hex_bytes_of(b@)[k]);
            let x = b@[k / 2];
            assert(x >> 4 < 16 && x & 15 < 16) by (bit_vector);
        }
        crate::utils::lemma_ascii_decode(out@);
    }
    match string_from_utf8(out) {
        Some(s) => {
            proof {
                vstd::utf8::decode_utf8_encode_utf8(hex_bytes_of(b@));
            }
            s
        },
        None => {
            proof {
                assert(false);
            }
            String::new()
        },
    }
}

} // verus!
