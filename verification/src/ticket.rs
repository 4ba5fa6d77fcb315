//! The portable room ticket and its shareable text form.
//!
//! A ticket names a room: a 256-bit topic identifier, a display name, and a
//! bootstrap set of peer identifiers. Its wire form is the topic's 32 bytes,
//! the name's UTF-8 bytes behind their length, and the ordered bootstrap
//! identifiers behind their count; the text form wraps those bytes in the
//! symbol encoding of [`crate::base32`] behind the fixed kind tag `chat`,
//! so that tokens of other kinds are told apart. Reading ignores bytes after
//! the bootstrap set and accepts an unordered or repeating identifier list,
//! as the original wire format does; writing always emits the canonical
//! ordered form, and reading a written ticket gives the ticket back.

use vstd::prelude::*;
use crate::base32;
use crate::errors::ChatError;
use crate::ids::NodeId;
use crate::ids::TopicId;
use crate::ids::ids_view;
use crate::ids::ids_wf;
use crate::ids::lex_lt;
use crate::ids::spec_insert;
use crate::ids::insert_id;
use crate::ids::lemma_insert_props;
use crate::ids::lemma_insert_all_below;
use crate::utils::lemma_ascii_decode;
use crate::utils::string_from_utf8;
use crate::varint::parse_varint;
use crate::varint::spec_varint;
use crate::varint::lemma_varint_round_trip;
use crate::varint::read_varint;
use crate::varint::write_varint;
use vstd::utf8::decode_utf8;
use vstd::utf8::encode_utf8;
use vstd::utf8::valid_utf8;
use vstd::utf8::encode_utf8_valid_utf8;
use vstd::utf8::encode_utf8_decode_utf8;
use vstd::utf8::decode_utf8_encode_utf8;

verus! {

/// The mathematical picture of a ticket: topic bytes, name characters, and
/// the bootstrap identifiers in ascending order.
#[verifier::ext_equal]
pub struct TicketV {
    pub topic: Seq<u8>,
    pub name: Seq<char>,
    pub bootstrap: Seq<Seq<u8>>,
}

/// A ticket is well formed when its topic holds 32 bytes and its bootstrap
/// set is an ascending sequence of 32-byte identifiers.
pub open spec fn ticket_wf(t: TicketV) -> bool {
    &&& t.topic.len() == 32
    &&& ids_wf(t.bootstrap)
}

/// A portable descriptor of a chat room.
#[derive(Clone, Debug, PartialEq, Eq, Hash)]
pub struct ChatTicket {
    pub topic_id: TopicId,
    pub name: String,
    pub bootstrap: Vec<NodeId>,
}

impl View for ChatTicket {
    type V = TicketV;

    open spec fn view(&self) -> TicketV {
        TicketV {
            topic: self.topic_id@,
            name: self.name@,
            bootstrap: ids_view(self.bootstrap@),
        }
    }
}

/// The identifiers of `s` laid end to end.
pub open spec fn flatten_ids(s: Seq<Seq<u8>>) -> Seq<u8>
    decreases s.len(),
{
    if s.len() == 0 {
        Seq::empty()
    } else {
        s[0] + flatten_ids(s.drop_first())
    }
}

/// The payload bytes of a ticket.
pub open spec fn spec_payload(t: TicketV) -> Seq<u8> {
    t.topic + spec_varint(encode_utf8(t.name).len()) + encode_utf8(t.name) + spec_varint(
        t.bootstrap.len(),
    ) + flatten_ids(t.bootstrap)
}

/// The identifiers read out of `b`, each 32 bytes, gathered one by one into
/// an ascending set.
pub open spec fn collect_ids(b: Seq<u8>, count: int) -> Seq<Seq<u8>>
    decreases count,
{
    if count <= 0 {
        Seq::empty()
    } else {
        spec_insert(collect_ids(b, count - 1), b.subrange(32 * (count - 1), 32 * count))
    }
}

/// The ticket denoted by payload bytes `b`, or `None` when they are
/// malformed. Bytes after the bootstrap set are ignored.
pub open spec fn parse_payload(b: Seq<u8>) -> Option<TicketV> {
    if b.len() < 32 {
        None
    } else {
        let topic = b.take(32);
        let rest1 = b.skip(32);
        match parse_varint(rest1) {
            None => None,
            Some((name_len, used1)) => {
                let rest2 = rest1.skip(used1);
                if name_len > rest2.len() {
                    None
                } else {
                    let name_bytes = rest2.take(name_len as int);
                    if !valid_utf8(name_bytes) {
                        None
                    } else {
                        let rest3 = rest2.skip(name_len as int);
                        match parse_varint(rest3) {
                            None => None,
                            Some((count, used2)) => {
                                let rest4 = rest3.skip(used2);
                                if count * 32 > rest4.len() {
                                    None
                                } else {
                                    Some(
                                        TicketV {
                                            topic: topic,
                                            name: decode_utf8(name_bytes),
                                            bootstrap: collect_ids(rest4, count as int),
                                        },
                                    )
                                }
                            },
                        }
                    }
                }
            },
        }
    }
}

/// The four bytes of the kind tag `chat`.
pub open spec fn kind_tag() -> Seq<u8> {
    seq![99u8, 104u8, 97u8, 116u8]
}

/// The text form of a ticket, as ASCII bytes: the kind tag, then the symbol
/// encoding of the payload.
pub open spec fn spec_token(t: TicketV) -> Seq<u8> {
    kind_tag() + base32::spec_encode(spec_payload(t))
}

/// The ticket denoted by token text `b`, or `None` when the kind tag is
/// absent or the rest is malformed.
pub open spec fn parse_token(b: Seq<u8>) -> Option<TicketV> {
    if b.len() < 4 || b.take(4) != kind_tag() {
        None
    } else {
        match base32::spec_decode(b.skip(4)) {
            None => None,
            Some(payload) => parse_payload(payload),
        }
    }
}

/// The flattened identifiers take 32 bytes each, and each sits at its
/// offset.
proof fn lemma_flatten_ids(s: Seq<Seq<u8>>)
    requires
        forall|i: int| 0 <= i < s.len() ==> (#[trigger] s[i]).len() == 32,
    ensures
        flatten_ids(s).len() == 32 * s.len(),
        forall|i: int|
            0 <= i < s.len() ==> flatten_ids(s).subrange(32 * i, 32 * i + 32) == #[trigger] s[i],
    decreases s.len(),
{
    if s.len() != 0 {
        let tail = s.drop_first();
        lemma_flatten_ids(tail);
        let f = flatten_ids(s);
        assert(f == s[0] + flatten_ids(tail));
        assert forall|i: int|
            0 <= i < s.len() implies f.subrange(32 * i, 32 * i + 32) == #[trigger] s[i] by {
            if i == 0 {
                assert(f.subrange(0, 32) =~= s[0]);
            } else {
                assert(tail[i - 1] == s[i]);
                assert(f.subrange(32 * i, 32 * i + 32) =~= flatten_ids(tail).subrange(
                    32 * (i - 1),
                    32 * (i - 1) + 32,
                ));
            }
        }
    }
}

/// Gathering the flattened form of an ascending set gives the set back.
proof fn lemma_collect_flatten(s: Seq<Seq<u8>>, b: Seq<u8>)
    requires
        ids_wf(s),
        b.len() >= 32 * s.len(),
        forall|i: int| 0 <= i < s.len() ==> b.subrange(32 * i, 32 * i + 32) == #[trigger] s[i],
    ensures
        collect_ids(b, s.len() as int) == s,
    decreases s.len(),
{
    if s.len() != 0 {
        let k = s.len() as int;
        let front = s.take(k - 1);
        assert(ids_wf(front)) by {
            assert(forall|i: int| 0 <= i < front.len() ==> front[i] == s[i]);
        }
        assert(forall|i: int|
            0 <= i < front.len() ==> b.subrange(32 * i, 32 * i + 32) == #[trigger] front[i]);
        lemma_collect_flatten(front, b);
        assert(collect_ids(b, k) == spec_insert(front, b.subrange(32 * (k - 1), 32 * k)));
        assert(b.subrange(32 * (k - 1), 32 * k) == s[k - 1]);
        assert(forall|j: int| 0 <= j < k - 1 ==> lex_lt(#[trigger] front[j], s[k - 1])) by {
            assert forall|j: int| 0 <= j < k - 1 implies lex_lt(#[trigger] front[j], s[k - 1]) by {
                crate::ids::lemma_sorted_below(s, j, k - 1);
            }
        }
        lemma_insert_all_below(front, s[k - 1]);
        assert(front + seq![s[k - 1]] =~= s);
    }
}

/// Round trip: the payload of a well-formed ticket reads back as the
/// ticket.
pub proof fn lemma_payload_round_trip(t: TicketV)
    requires
        ticket_wf(t),
        encode_utf8(t.name).len() < 0x10000000000000000,
        t.bootstrap.len() < 0x10000000000000000,
    ensures
        parse_payload(spec_payload(t)) == Some(t),
{
    let nb = encode_utf8(t.name);
    let flat = flatten_ids(t.bootstrap);
    let count = t.bootstrap.len();
    let b = spec_payload(t);
    let tail1 = nb + spec_varint(count) + flat;
    assert(b =~= t.topic + (spec_varint(nb.len()) + tail1));
    assert(b.len() >= 32);
    assert(b.take(32) =~= t.topic);
    let rest1 = b.skip(32);
    assert(rest1 =~= spec_varint(nb.len()) + tail1);
    lemma_varint_round_trip(nb.len(), tail1);
    let used1 = spec_varint(nb.len()).len() as int;
    assert(parse_varint(rest1) == Some((nb.len(), used1)));
    let rest2 = rest1.skip(used1);
    assert(rest2 =~= tail1);
    assert(nb.len() <= rest2.len());
    assert(rest2.take(nb.len() as int) =~= nb);
    broadcast use encode_utf8_valid_utf8;

    assert(valid_utf8(nb));
    encode_utf8_decode_utf8(t.name);
    let rest3 = rest2.skip(nb.len() as int);
    let tail2 = flat;
    assert(rest3 =~= spec_varint(count) + tail2);
    lemma_varint_round_trip(count, tail2);
    let used2 = spec_varint(count).len() as int;
    assert(parse_varint(rest3) == Some((count, used2)));
    let rest4 = rest3.skip(used2);
    assert(rest4 =~= flat);
    lemma_flatten_ids(t.bootstrap);
    assert(count * 32 <= rest4.len());
    lemma_collect_flatten(t.bootstrap, rest4);
    assert(parse_payload(b) == Some(
        TicketV {
            topic: b.take(32),
            name: decode_utf8(rest2.take(nb.len() as int)),
            bootstrap: collect_ids(rest4, count as int),
        },
    ));
    assert(parse_payload(b).unwrap() =~= t);
}

/// Round trip: the token text of a well-formed ticket reads back as the
/// ticket.
pub proof fn lemma_token_round_trip(t: TicketV)
    requires
        ticket_wf(t),
        encode_utf8(t.name).len() < 0x10000000000000000,
        t.bootstrap.len() < 0x10000000000000000,
    ensures
        parse_token(spec_token(t)) == Some(t),
{
    let payload = spec_payload(t);
    let b = spec_token(t);
    assert(b.take(4) =~= kind_tag());
    assert(b.skip(4) =~= base32::spec_encode(payload));
    base32::lemma_b32_round_trip(payload);
    lemma_payload_round_trip(t);
}

/// Kind discrimination: text that does not begin with the `chat` tag, such
/// as a token of another kind, denotes no ticket.
pub proof fn lemma_kind_discrimination(b: Seq<u8>)
    requires
        b.len() < 4 || b.take(4) != kind_tag(),
    ensures
        parse_token(b) is None,
{
}


/// Relies on rand::random: 32 bytes drawn from the thread-local generator.
/// Nothing can be promised of their values beyond their count.
#[verifier::external_body]
fn random_bytes32() -> (r: Vec<u8>)
    ensures
        r@.len() == 32,
{
    rand::random::<[u8; 32]>().to_vec()
}

/// Append every byte of `b` to `out`.
fn push_all(out: &mut Vec<u8>, b: &[u8])
    ensures
        final(out)@ == old(out)@ + b@,
{
    let ghost prev = out@;
    let n: usize = b.len();
    let mut i: usize = 0;
    while i < n
        invariant
            i <= n,
            n == b@.len(),
            out@ == prev + b@.take(i as int),
        decreases n - i,
    {
        out.push(b[i]);
        proof {
            assert(prev + b@.take(i + 1) =~= (prev + b@.take(i as int)).push(b@[i as int]));
        }
        i = i + 1;
    }
    proof {
        assert(b@.take(n as int) =~= b@);
    }
}

impl ChatTicket {
    /// A ticket is well formed when its topic holds 32 bytes and its
    /// bootstrap set is ascending.
    pub open spec fn wf(&self) -> bool {
        ticket_wf(self@)
    }

    /// A ticket for the given topic with the given name and an empty
    /// bootstrap set.
    pub fn new(topic_id: TopicId, name: &str) -> (r: ChatTicket)
        requires
            topic_id.wf(),
        ensures
            r@.topic == topic_id@,
            r@.name == name@,
            r@.bootstrap == Seq::<Seq<u8>>::empty(),
            r.wf(),
    {
        let r = ChatTicket { topic_id, name: name.to_owned(), bootstrap: Vec::new() };
        proof {
            assert(ids_view(r.bootstrap@) =~= Seq::<Seq<u8>>::empty());
        }
        r
    }

    /// A ticket for a fresh random topic with the given name and an empty
    /// bootstrap set.
    pub fn new_named(name: &str) -> (r: ChatTicket)
        ensures
            r@.name == name@,
            r@.bootstrap == Seq::<Seq<u8>>::empty(),
            r.wf(),
    {
        let bytes = random_bytes32();
        match TopicId::from_bytes(bytes) {
            Some(topic_id) => Self::new(topic_id, name),
            None => {
                proof {
                    assert(false);
                }
                Self::new(TopicId { bytes: Vec::new() }, name)
            },
        }
    }

    /// A copy whose view is the same.
    pub fn duplicate(&self) -> (r: ChatTicket)
        ensures
            r@ == self@,
    {
        let mut bootstrap: Vec<NodeId> = Vec::new();
        let n: usize = self.bootstrap.len();
        let mut i: usize = 0;
        while i < n
            invariant
                i <= n,
                n == self.bootstrap@.len(),
                bootstrap@.len() == i,
                forall|k: int| 0 <= k < i ==> bootstrap@[k]@ == self.bootstrap@[k]@,
            decreases n - i,
        {
            bootstrap.push(self.bootstrap[i].duplicate());
            i = i + 1;
        }
        let r = ChatTicket {
            topic_id: self.topic_id.duplicate(),
            name: crate::utils::clone_string(&self.name),
            bootstrap,
        };
        proof {
            assert(ids_view(r.bootstrap@) =~= ids_view(self.bootstrap@));
        }
        r
    }

    /// The payload bytes of this ticket.
    pub fn to_bytes(&self) -> (r: Vec<u8>)
        requires
            self.wf(),
        ensures
            r@ == spec_payload(self@),
    {
        let mut out: Vec<u8> = Vec::new();
        push_all(&mut out, self.topic_id.as_bytes().as_slice());
        let name_bytes: &[u8] = self.name.as_str().as_bytes();
        proof {
            broadcast use vstd::string::group_string_axioms;
        }
        write_varint(&mut out, name_bytes.len() as u64);
        push_all(&mut out, name_bytes);
        write_varint(&mut out, self.bootstrap.len() as u64);
        let ghost ids = ids_view(self.bootstrap@);
        let ghost head = out@;
        let n: usize = self.bootstrap.len();
        let mut i: usize = 0;
        proof {
            assert(flatten_ids(ids.take(0)) =~= Seq::<u8>::empty());
            assert(out@ =~= head + flatten_ids(ids.take(0)));
        }
        while i < n
            invariant
                i <= n,
                n == self.bootstrap@.len(),
                ids == ids_view(self.bootstrap@),
                self.wf(),
                out@ == head + flatten_ids(ids.take(i as int)),
            decreases n - i,
        {
            push_all(&mut out, self.bootstrap[i].as_bytes().as_slice());
            proof {
                assert(ids[i as int] == self.bootstrap@[i as int]@);
                lemma_flatten_push(ids.take(i as int), ids[i as int]);
                assert(ids.take(i + 1) =~= ids.take(i as int).push(ids[i as int]));
                assert(out@ =~= head + flatten_ids(ids.take(i + 1)));
            }
            i = i + 1;
        }
        proof {
            assert(ids.take(n as int) =~= ids);
            assert(out@ =~= spec_payload(self@));
        }
        out
    }

    /// Read a ticket out of payload bytes; bytes after the bootstrap set
    /// are ignored.
    pub fn from_bytes(bytes: &[u8]) -> (r: Result<ChatTicket, ChatError>)
        ensures
            match r {
                Ok(t) => parse_payload(bytes@) == Some(t@) && t.wf(),
                Err(e) => parse_payload(bytes@) is None && e == ChatError::InvalidTicket,
            },
    {
        let n: usize = bytes.len();
        if n < 32 {
            return Err(ChatError::InvalidTicket);
        }
        let topic_bytes = vstd::slice::slice_to_vec(vstd::slice::slice_subrange(bytes, 0, 32));
        proof {
            assert(topic_bytes@ =~= bytes@.take(32));
        }
        let topic_id = match TopicId::from_bytes(topic_bytes) {
            Some(id) => id,
            None => {
                proof {
                    assert(false);
                }
                return Err(ChatError::InvalidTicket);
            },
        };
        let (name_len, name_start) = match read_varint(bytes, 32) {
            Some(pair) => pair,
            None => {
                return Err(ChatError::InvalidTicket);
            },
        };
        let ghost rest1 = bytes@.skip(32);
        let ghost rest2 = rest1.skip(name_start - 32);
        proof {
            assert(rest2 =~= bytes@.skip(name_start as int));
        }
        if name_len > (n - name_start) as u64 {
            return Err(ChatError::InvalidTicket);
        }
        let name_end: usize = name_start + name_len as usize;
        let name_vec = vstd::slice::slice_to_vec(
            vstd::slice::slice_subrange(bytes, name_start, name_end),
        );
        proof {
            assert(name_vec@ =~= rest2.take(name_len as int));
        }
        let name = match string_from_utf8(name_vec) {
            Some(s) => s,
            None => {
                return Err(ChatError::InvalidTicket);
            },
        };
        let (count, ids_start) = match read_varint(bytes, name_end) {
            Some(pair) => pair,
            None => {
                proof {
                    assert(rest2.skip(name_len as int) =~= bytes@.skip(name_end as int));
                }
                return Err(ChatError::InvalidTicket);
            },
        };
        let ghost rest3 = rest2.skip(name_len as int);
        let ghost rest4 = rest3.skip(ids_start - name_end);
        proof {
            assert(rest3 =~= bytes@.skip(name_end as int));
            assert(rest4 =~= bytes@.skip(ids_start as int));
        }
        let room: usize = (n - ids_start) / 32;
        if count > room as u64 {
            proof {
                assert(count * 32 > rest4.len());
            }
            return Err(ChatError::InvalidTicket);
        }
        proof {
            assert(count * 32 <= room * 32 <= rest4.len());
        }
        let mut bootstrap: Vec<NodeId> = Vec::new();
        let mut k: usize = 0;
        let count_us: usize = count as usize;
        proof {
            assert(ids_view(bootstrap@) =~= Seq::<Seq<u8>>::empty());
            assert(collect_ids(rest4, 0) == Seq::<Seq<u8>>::empty());
        }
        while k < count_us
            invariant
                k <= count_us,
                count_us == count,
                count * 32 <= rest4.len(),
                rest4 == bytes@.skip(ids_start as int),
                ids_start + count * 32 <= n,
                n == bytes@.len(),
                ids_view(bootstrap@) == collect_ids(rest4, k as int),
                ids_wf(ids_view(bootstrap@)),
            decreases count_us - k,
        {
            let off: usize = ids_start + k * 32;
            let id_vec = vstd::slice::slice_to_vec(
                vstd::slice::slice_subrange(bytes, off, off + 32),
            );
            proof {
                assert(id_vec@ =~= rest4.subrange(32 * (k as int), 32 * (k as int) + 32));
            }
            let id = match NodeId::from_bytes(id_vec) {
                Some(id) => id,
                None => {
                    proof {
                        assert(false);
                    }
                    return Err(ChatError::InvalidTicket);
                },
            };
            proof {
                lemma_insert_props(ids_view(bootstrap@), id@);
            }
            insert_id(&mut bootstrap, id);
            k = k + 1;
        }
        let t = ChatTicket { topic_id, name, bootstrap };
        proof {
            let parsed = parse_payload(bytes@);
            assert(rest2.take(name_len as int).len() == name_len);
            decode_utf8_encode_utf8(rest2.take(name_len as int));
            assert(parsed == Some(t@));
        }
        Ok(t)
    }

    /// The shareable text form of this ticket.
    pub fn serialize(&self) -> (r: String)
        requires
            self.wf(),
        ensures
            encode_utf8(r@) == spec_token(self@),
    {
        let payload = self.to_bytes();
        let body = base32::encode(payload.as_slice());
        let mut out: Vec<u8> = Vec::new();
        out.push(99);
        out.push(104);
        out.push(97);
        out.push(116);
        push_all(&mut out, body.as_slice());
        proof {
            assert(out@ =~= spec_token(self@));
            base32::lemma_encode_ascii(payload@);
            assert forall|i: int| 0 <= i < out@.len() implies #[trigger] out@[i] < 128 by {
                if i >= 4 {
                    assert(out@[i] == base32::spec_encode(payload@)[i - 4]);
                }
            }
            lemma_ascii_decode(out@);
        }
        match string_from_utf8(out) {
            Some(s) => {
                proof {
                    decode_utf8_encode_utf8(spec_token(self@));
                }
                s
            },
            None => {
                proof {
                    assert(false);
                }
                String::new()
            },
        }
    }

    /// Read a ticket out of its shareable text form; fails on a foreign
    /// kind tag or a malformed payload.
    pub fn deserialize(input: &str) -> (r: Result<ChatTicket, ChatError>)
        ensures
            match r {
                Ok(t) => parse_token(encode_utf8(input@)) == Some(t@) && t.wf(),
                Err(e) => parse_token(encode_utf8(input@)) is None && e
                    == ChatError::InvalidTicket,
            },
    {
        let b: &[u8] = input.as_bytes();
        proof {
            broadcast use vstd::string::group_string_axioms;
        }
        let n: usize = b.len();
        if n < 4 {
            return Err(ChatError::InvalidTicket);
        }
        if b[0] != 99 || b[1] != 104 || b[2] != 97 || b[3] != 116 {
            proof {
                assert(b@.take(4) != kind_tag());
            }
            return Err(ChatError::InvalidTicket);
        }
        proof {
            assert(b@.take(4) =~= kind_tag());
        }
        let body = vstd::slice::slice_subrange(b, 4, n);
        proof {
            assert(body@ =~= b@.skip(4));
        }
        match base32::decode(body) {
            Some(payload) => Self::from_bytes(payload.as_slice()),
            None => Err(ChatError::InvalidTicket),
        }
    }
}

/// Flattening one more identifier appends its bytes.
proof fn lemma_flatten_push(s: Seq<Seq<u8>>, id: Seq<u8>)
    ensures
        flatten_ids(s.push(id)) == flatten_ids(s) + id,
    decreases s.len(),
{
    if s.len() == 0 {
        assert(s.push(id)[0] == id);
        assert(s.push(id).drop_first() =~= Seq::<Seq<u8>>::empty());
        assert(flatten_ids(Seq::<Seq<u8>>::empty()) == Seq::<u8>::empty());
        assert(flatten_ids(s.push(id)) =~= id + Seq::<u8>::empty());
        assert(id + Seq::<u8>::empty() =~= id);
        assert(flatten_ids(s) + id =~= id);
    } else {
        assert(s.push(id).drop_first() =~= s.drop_first().push(id));
        lemma_flatten_push(s.drop_first(), id);
        assert(flatten_ids(s.push(id)) =~= flatten_ids(s) + id);
    }
}

} // verus!
