//! The live state of a joined room.
//!
//! A channel remembers the room's identity, the bootstrap set fixed at join
//! time, and the set of neighbors currently visible, which moves only under
//! the three membership events: a join report unions its peers in, a
//! neighbor-up inserts one, a neighbor-down removes one. Every other event
//! passes through without touching the set.

use vstd::prelude::*;
use crate::errors::ChatError;
use crate::ids::NodeId;
use crate::ids::TopicId;
use crate::ids::id_in;
use crate::ids::ids_view;
use crate::ids::ids_wf;
use crate::ids::insert_id;
use crate::ids::id_cmp;
use crate::ids::hex_bytes_of;
use crate::ids::lemma_insert_props;
use crate::ids::lex_lt;
use crate::ids::spec_insert;
use crate::ticket::ChatTicket;
use crate::utils::clone_string;
use crate::ticket::TicketV;
use crate::ticket::ticket_wf;

verus! {

/// Which peer sets to include in the bootstrap set of a shared ticket.
#[derive(Clone, Copy, Debug)]
pub struct TicketOpts {
    pub include_myself: bool,
    pub include_bootstrap: bool,
    pub include_neighbors: bool,
}

impl TicketOpts {
    /// Options that include every known peer source.
    pub fn all() -> (r: TicketOpts)
        ensures
            r.include_myself,
            r.include_bootstrap,
            r.include_neighbors,
    {
        TicketOpts { include_myself: true, include_bootstrap: true, include_neighbors: true }
    }
}

/// An event drained from the inbound stream of a joined room.
pub enum Event {
    /// A peer's chat message.
    MessageReceived { from: NodeId, text: String },
    /// The room reported an initial set of neighbors.
    Joined { neighbors: Vec<NodeId> },
    /// A neighbor became visible.
    NeighborUp { node_id: NodeId },
    /// A neighbor went away.
    NeighborDown { node_id: NodeId },
}

/// The mathematical picture of an event.
pub enum EventV {
    MessageReceived { from: Seq<u8>, text: Seq<char> },
    Joined { neighbors: Seq<Seq<u8>> },
    NeighborUp { node_id: Seq<u8> },
    NeighborDown { node_id: Seq<u8> },
}

impl View for Event {
    type V = EventV;

    open spec fn view(&self) -> EventV {
        match *self {
            Event::MessageReceived { from, text } => EventV::MessageReceived {
                from: from@,
                text: text@,
            },
            Event::Joined { neighbors } => EventV::Joined { neighbors: ids_view(neighbors@) },
            Event::NeighborUp { node_id } => EventV::NeighborUp { node_id: node_id@ },
            Event::NeighborDown { node_id } => EventV::NeighborDown { node_id: node_id@ },
        }
    }
}

/// Every identifier named by the event holds 32 bytes.
pub open spec fn event_wf(e: EventV) -> bool {
    match e {
        EventV::MessageReceived { from, text } => from.len() == 32,
        EventV::Joined { neighbors } => forall|i: int|
            0 <= i < neighbors.len() ==> (#[trigger] neighbors[i]).len() == 32,
        EventV::NeighborUp { node_id } => node_id.len() == 32,
        EventV::NeighborDown { node_id } => node_id.len() == 32,
    }
}

/// Each identifier of `ids` put into its place in turn.
pub open spec fn spec_insert_all(s: Seq<Seq<u8>>, ids: Seq<Seq<u8>>) -> Seq<Seq<u8>>
    decreases ids.len(),
{
    if ids.len() == 0 {
        s
    } else {
        spec_insert_all(spec_insert(s, ids[0]), ids.drop_first())
    }
}

/// What inserting many does: the result is an ascending set holding exactly
/// the old identifiers and the new ones.
pub proof fn lemma_insert_all_props(s: Seq<Seq<u8>>, ids: Seq<Seq<u8>>)
    requires
        ids_wf(s),
        forall|i: int| 0 <= i < ids.len() ==> (#[trigger] ids[i]).len() == 32,
    ensures
        ids_wf(spec_insert_all(s, ids)),
        forall|x: Seq<u8>|
            id_in(spec_insert_all(s, ids), x) <==> id_in(s, x) || id_in(ids, x),
    decreases ids.len(),
{
    if ids.len() != 0 {
        let first = ids[0];
        lemma_insert_props(s, first);
        let s1 = spec_insert(s, first);
        let rest = ids.drop_first();
        assert(forall|i: int| 0 <= i < rest.len() ==> rest[i] == ids[i + 1]);
        lemma_insert_all_props(s1, rest);
        assert forall|x: Seq<u8>|
            id_in(spec_insert_all(s, ids), x) <==> id_in(s, x) || id_in(ids, x) by {
            if id_in(ids, x) {
                let k = choose|k: int| 0 <= k < ids.len() && ids[k] == x;
                if k > 0 {
                    assert(rest[k - 1] == x);
                }
            }
            if id_in(rest, x) {
                let k = choose|k: int| 0 <= k < rest.len() && rest[k] == x;
                assert(ids[k + 1] == x);
            }
            if x == first {
                assert(ids[0] == x);
            }
        }
    }
}

/// The place of `id` in `s`, when it stands there.
pub open spec fn index_of(s: Seq<Seq<u8>>, id: Seq<u8>) -> int {
    choose|k: int| 0 <= k < s.len() && s[k] == id
}

/// The sequence with `id` taken out of its place, if it stands there.
pub open spec fn spec_remove(s: Seq<Seq<u8>>, id: Seq<u8>) -> Seq<Seq<u8>> {
    if id_in(s, id) {
        s.remove(index_of(s, id))
    } else {
        s
    }
}

/// When `id` stands in `s`, its place is a real place.
proof fn lemma_index_of(s: Seq<Seq<u8>>, id: Seq<u8>)
    requires
        id_in(s, id),
    ensures
        0 <= index_of(s, id) < s.len(),
        s[index_of(s, id)] == id,
{
}

/// In an ascending sequence no identifier stands in two places.
proof fn lemma_sorted_unique_index(s: Seq<Seq<u8>>, i: int, j: int)
    requires
        crate::ids::sorted_ids(s),
        0 <= i < s.len(),
        0 <= j < s.len(),
        s[i] == s[j],
    ensures
        i == j,
{
    if i < j {
        crate::ids::lemma_sorted_below(s, i, j);
        crate::ids::lemma_lex_asymmetric(s[i], s[j]);
    }
    if j < i {
        crate::ids::lemma_sorted_below(s, j, i);
        crate::ids::lemma_lex_asymmetric(s[j], s[i]);
    }
}

/// Removal at a found place is what `spec_remove` means.
#[verifier::rlimit(50)]
proof fn lemma_remove_at(s: Seq<Seq<u8>>, id: Seq<u8>, i: int)
    requires
        crate::ids::sorted_ids(s),
        0 <= i < s.len(),
        s[i] == id,
    ensures
        spec_remove(s, id) == s.remove(i),
{
    assert(id_in(s, id)) by {
        assert(s[i] == id);
    }
    lemma_index_of(s, id);
    lemma_sorted_unique_index(s, i, index_of(s, id));
}

/// What removal does: the result is an ascending set holding exactly the
/// old identifiers but `id`.
#[verifier::rlimit(100)]
pub proof fn lemma_remove_props(s: Seq<Seq<u8>>, id: Seq<u8>)
    requires
        ids_wf(s),
    ensures
        ids_wf(spec_remove(s, id)),
        forall|x: Seq<u8>| id_in(spec_remove(s, id), x) <==> id_in(s, x) && x != id,
        id_in(s, id) ==> spec_remove(s, id).len() == s.len() - 1,
        !id_in(s, id) ==> spec_remove(s, id) == s,
{
    if id_in(s, id) {
        lemma_index_of(s, id);
        let k = index_of(s, id);
        let r = s.remove(k);
        assert(spec_remove(s, id) == r);
        assert(forall|m: int| 0 <= m < k ==> r[m] == s[m]);
        assert(forall|m: int| k <= m < r.len() ==> r[m] == s[m + 1]);
        assert(ids_wf(r)) by {
            assert forall|m: int| 0 <= m < r.len() - 1 implies lex_lt(
                #[trigger] r[m],
                r[m + 1],
            ) by {
                if m == k - 1 {
                    crate::ids::lemma_sorted_below(s, k - 1, k + 1);
                } else if m < k - 1 {
                    assert(r[m] == s[m] && r[m + 1] == s[m + 1]);
                } else {
                    assert(r[m] == s[m + 1] && r[m + 1] == s[m + 2]);
                }
            }
        }
        assert forall|x: Seq<u8>| id_in(r, x) <==> id_in(s, x) && x != id by {
            if id_in(r, x) {
                let m = choose|m: int| 0 <= m < r.len() && r[m] == x;
                if m < k {
                    assert(s[m] == x);
                    if x == id {
                        lemma_sorted_unique_index(s, m, k);
                    }
                } else {
                    assert(s[m + 1] == x);
                    if x == id {
                        lemma_sorted_unique_index(s, m + 1, k);
                    }
                }
            }
            if id_in(s, x) && x != id {
                let m = choose|m: int| 0 <= m < s.len() && s[m] == x;
                if m < k {
                    assert(r[m] == x);
                } else {
                    assert(m != k);
                    assert(r[m - 1] == x);
                }
            }
        }
    }
}

/// The mathematical picture of a joined room.
#[verifier::ext_equal]
pub struct ChannelV {
    pub topic: Seq<u8>,
    pub name: Seq<char>,
    pub me: Seq<u8>,
    pub bootstrap: Seq<Seq<u8>>,
    pub neighbors: Seq<Seq<u8>>,
}

/// A channel is well formed when its identifiers hold 32 bytes and both
/// peer sets are ascending.
pub open spec fn channel_wf(c: ChannelV) -> bool {
    &&& c.topic.len() == 32
    &&& c.me.len() == 32
    &&& ids_wf(c.bootstrap)
    &&& ids_wf(c.neighbors)
}

/// What the neighbor set becomes under an event: a join report unions its
/// peers in, a neighbor-up inserts, a neighbor-down removes, anything else
/// leaves the set alone.
pub open spec fn spec_apply(neighbors: Seq<Seq<u8>>, e: EventV) -> Seq<Seq<u8>> {
    match e {
        EventV::Joined { neighbors: reported } => spec_insert_all(neighbors, reported),
        EventV::NeighborUp { node_id } => spec_insert(neighbors, node_id),
        EventV::NeighborDown { node_id } => spec_remove(neighbors, node_id),
        EventV::MessageReceived { .. } => neighbors,
    }
}

/// The ticket rebuilt from a channel under the given options: the topic and
/// name are preserved, and the bootstrap set is the union of the chosen
/// sources.
pub open spec fn spec_generate_ticket(c: ChannelV, opts: TicketOpts) -> TicketV {
    let withme = if opts.include_myself {
        spec_insert(Seq::empty(), c.me)
    } else {
        Seq::empty()
    };
    let withboot = if opts.include_bootstrap {
        spec_insert_all(withme, c.bootstrap)
    } else {
        withme
    };
    let withnb = if opts.include_neighbors {
        spec_insert_all(withboot, c.neighbors)
    } else {
        withboot
    };
    TicketV { topic: c.topic, name: c.name, bootstrap: withnb }
}

/// Live representation of a joined room.
pub struct Channel {
    pub topic_id: TopicId,
    pub name: String,
    pub me: NodeId,
    pub bootstrap: Vec<NodeId>,
    pub neighbors: Vec<NodeId>,
}

impl View for Channel {
    type V = ChannelV;

    open spec fn view(&self) -> ChannelV {
        ChannelV {
            topic: self.topic_id@,
            name: self.name@,
            me: self.me@,
            bootstrap: ids_view(self.bootstrap@),
            neighbors: ids_view(self.neighbors@),
        }
    }
}

impl Channel {
    /// A channel is well formed when its view is.
    pub open spec fn wf(&self) -> bool {
        channel_wf(self@)
    }

    /// The state of a freshly joined room: the ticket's identity and
    /// bootstrap set with the local peer added, and no neighbors yet.
    pub fn new(ticket: ChatTicket, me: NodeId) -> (r: Channel)
        requires
            ticket.wf(),
            me.wf(),
        ensures
            r@.topic == ticket@.topic,
            r@.name == ticket@.name,
            r@.me == me@,
            r@.bootstrap == spec_insert(ticket@.bootstrap, me@),
            r@.neighbors == Seq::<Seq<u8>>::empty(),
            r.wf(),
    {
        let ghost mev = me@;
        let me2 = me.duplicate();
        let mut bootstrap = ticket.bootstrap;
        insert_id(&mut bootstrap, me);
        let r = Channel {
            topic_id: ticket.topic_id,
            name: ticket.name,
            me: me2,
            bootstrap,
            neighbors: Vec::new(),
        };
        proof {
            lemma_insert_props(ticket@.bootstrap, mev);
            assert(ids_view(r.neighbors@) =~= Seq::<Seq<u8>>::empty());
        }
        r
    }

    /// Apply one inbound event to the neighbor set; other state never
    /// moves.
    pub fn apply_event(&mut self, event: &Event)
        requires
            old(self).wf(),
            event_wf(event@),
        ensures
            final(self)@.neighbors == spec_apply(old(self)@.neighbors, event@),
            final(self)@.topic == old(self)@.topic,
            final(self)@.name == old(self)@.name,
            final(self)@.me == old(self)@.me,
            final(self)@.bootstrap == old(self)@.bootstrap,
            final(self).wf(),
    {
        match event {
            Event::Joined { neighbors } => {
                let ghost reported = ids_view(neighbors@);
                let n: usize = neighbors.len();
                let mut i: usize = 0;
                proof {
                    assert(*event is Joined);
                    assert((*event)->Joined_neighbors == *neighbors);
                    assert(event@ is Joined);
                    assert(event@->Joined_neighbors == reported);
                    assert(event@ == EventV::Joined { neighbors: reported });
                    assert(forall|k: int|
                        0 <= k < reported.len() ==> (#[trigger] reported[k]).len() == 32);
                    assert(reported.skip(0) =~= reported);
                    assert(ids_view(self.neighbors@) == old(self)@.neighbors);
                }
                while i < n
                    invariant
                        i <= n,
                        n == neighbors@.len(),
                        reported == ids_view(neighbors@),
                        forall|k: int|
                            0 <= k < reported.len() ==> (#[trigger] reported[k]).len() == 32,
                        ids_wf(ids_view(self.neighbors@)),
                        spec_insert_all(ids_view(self.neighbors@), reported.skip(i as int))
                            == spec_insert_all(old(self)@.neighbors, reported),
                        self.topic_id@ == old(self)@.topic,
                        self.name@ == old(self)@.name,
                        self.me@ == old(self)@.me,
                        ids_view(self.bootstrap@) == old(self)@.bootstrap,
                        old(self).wf(),
                    decreases n - i,
                {
                    let ghost before = ids_view(self.neighbors@);
                    proof {
                        assert(reported[i as int] == neighbors@[i as int]@);
                        lemma_insert_props(before, reported[i as int]);
                    }
                    let id = neighbors[i].duplicate();
                    insert_id(&mut self.neighbors, id);
                    proof {
                        let rem = reported.skip(i as int);
                        assert(rem[0] == reported[i as int]);
                        assert(rem.drop_first() =~= reported.skip(i + 1));
                        assert(spec_insert_all(before, rem) == spec_insert_all(
                            spec_insert(before, reported[i as int]),
                            reported.skip(i + 1),
                        ));
                    }
                    i = i + 1;
                }
                proof {
                    assert(reported.skip(n as int) =~= Seq::<Seq<u8>>::empty());
                }
            },
            Event::NeighborUp { node_id } => {
                proof {
                    lemma_insert_props(ids_view(self.neighbors@), node_id@);
                }
                let id = node_id.duplicate();
                insert_id(&mut self.neighbors, id);
            },
            Event::NeighborDown { node_id } => {
                proof {
                    lemma_remove_props(ids_view(self.neighbors@), node_id@);
                }
                remove_id(&mut self.neighbors, node_id);
            },
            Event::MessageReceived { .. } => {},
        }
    }

    /// Rebuild a shareable ticket from this channel: the topic and name are
    /// preserved, and the bootstrap set unions the chosen sources. With all
    /// options off the bootstrap set is empty.
    pub fn generate_ticket(&self, opts: TicketOpts) -> (r: ChatTicket)
        requires
            self.wf(),
        ensures
            r@ == spec_generate_ticket(self@, opts),
            r.wf(),
            forall|x: Seq<u8>|
                id_in(r@.bootstrap, x) <==> ((opts.include_myself && x == self@.me) || (
                opts.include_bootstrap && id_in(self@.bootstrap, x)) || (opts.include_neighbors
                    && id_in(self@.neighbors, x))),
            (!opts.include_myself && !opts.include_bootstrap && !opts.include_neighbors)
                ==> r@.bootstrap == Seq::<Seq<u8>>::empty(),
    {
        let mut ids: Vec<NodeId> = Vec::new();
        proof {
            assert(ids_view(ids@) =~= Seq::<Seq<u8>>::empty());
            assert(ids_wf(ids_view(ids@)));
        }
        if opts.include_myself {
            proof {
                lemma_insert_props(ids_view(ids@), self@.me);
            }
            insert_id(&mut ids, self.me.duplicate());
        }
        if opts.include_bootstrap {
            proof {
                assert forall|i: int| 0 <= i < self.bootstrap@.len() implies (
                #[trigger] self.bootstrap@[i]).wf() by {
                    assert(ids_view(self.bootstrap@)[i] == self.bootstrap@[i]@);
                }
            }
            insert_all(&mut ids, &self.bootstrap);
        }
        if opts.include_neighbors {
            proof {
                assert forall|i: int| 0 <= i < self.neighbors@.len() implies (
                #[trigger] self.neighbors@[i]).wf() by {
                    assert(ids_view(self.neighbors@)[i] == self.neighbors@[i]@);
                }
            }
            insert_all(&mut ids, &self.neighbors);
        }
        let r = ChatTicket {
            topic_id: self.topic_id.duplicate(),
            name: clone_string(&self.name),
            bootstrap: ids,
        };
        proof {
            let c = self@;
            let withme = if opts.include_myself {
                spec_insert(Seq::<Seq<u8>>::empty(), c.me)
            } else {
                Seq::<Seq<u8>>::empty()
            };
            let withboot = if opts.include_bootstrap {
                spec_insert_all(withme, c.bootstrap)
            } else {
                withme
            };
            if opts.include_myself {
                lemma_insert_props(Seq::<Seq<u8>>::empty(), c.me);
            }
            lemma_insert_all_props(withme, c.bootstrap);
            lemma_insert_all_props(withboot, c.neighbors);
            assert(r@.bootstrap == spec_generate_ticket(c, opts).bootstrap);
            if !opts.include_myself && !opts.include_bootstrap && !opts.include_neighbors {
                assert(r@.bootstrap =~= Seq::<Seq<u8>>::empty());
            }
        }
        r
    }

    /// The shareable text form of this channel under the given options.
    pub fn ticket(&self, opts: TicketOpts) -> (r: String)
        requires
            self.wf(),
        ensures
            vstd::utf8::encode_utf8(r@) == crate::ticket::spec_token(
                spec_generate_ticket(self@, opts),
            ),
    {
        let t = self.generate_ticket(opts);
        t.serialize()
    }

    /// The stable text form of the room's topic identifier.
    pub fn id(&self) -> (r: String)
        ensures
            vstd::utf8::encode_utf8(r@) == hex_bytes_of(self@.topic),
    {
        self.topic_id.to_hex()
    }

    /// A snapshot of the neighbor set, each peer in its text form, in
    /// ascending order of the underlying bytes.
    pub fn neighbors(&self) -> (r: Vec<String>)
        ensures
            r@.len() == self@.neighbors.len(),
            forall|i: int|
                0 <= i < r@.len() ==> vstd::utf8::encode_utf8(#[trigger] r@[i]@)
                    == hex_bytes_of(self@.neighbors[i]),
    {
        let n: usize = self.neighbors.len();
        let mut out: Vec<String> = Vec::new();
        let mut i: usize = 0;
        while i < n
            invariant
                i <= n,
                n == self.neighbors@.len(),
                out@.len() == i,
                forall|k: int|
                    0 <= k < i ==> vstd::utf8::encode_utf8(#[trigger] out@[k]@)
                        == hex_bytes_of(self@.neighbors[k]),
            decreases n - i,
        {
            let s = self.neighbors[i].to_hex();
            proof {
                assert(self@.neighbors[i as int] == self.neighbors@[i as int]@);
            }
            out.push(s);
            i = i + 1;
        }
        out
    }
}

/// Put every identifier of `ids` into its place in `v`.
fn insert_all(v: &mut Vec<NodeId>, ids: &Vec<NodeId>)
    requires
        ids_wf(ids_view(old(v)@)),
        forall|i: int| 0 <= i < ids@.len() ==> (#[trigger] ids@[i]).wf(),
    ensures
        ids_view(final(v)@) == spec_insert_all(ids_view(old(v)@), ids_view(ids@)),
        ids_wf(ids_view(final(v)@)),
{
    let ghost all = ids_view(ids@);
    let n: usize = ids.len();
    let mut i: usize = 0;
    proof {
        assert(all.skip(0) =~= all);
    }
    while i < n
        invariant
            i <= n,
            n == ids@.len(),
            all == ids_view(ids@),
            forall|k: int| 0 <= k < ids@.len() ==> (#[trigger] ids@[k]).wf(),
            ids_wf(ids_view(v@)),
            spec_insert_all(ids_view(v@), all.skip(i as int)) == spec_insert_all(
                ids_view(old(v)@),
                all,
            ),
        decreases n - i,
    {
        let ghost before = ids_view(v@);
        proof {
            assert(all[i as int] == ids@[i as int]@);
            lemma_insert_props(before, all[i as int]);
        }
        insert_id(v, ids[i].duplicate());
        proof {
            let rem = all.skip(i as int);
            assert(rem[0] == all[i as int]);
            assert(rem.drop_first() =~= all.skip(i + 1));
            assert(spec_insert_all(before, rem) == spec_insert_all(
                spec_insert(before, all[i as int]),
                all.skip(i + 1),
            ));
        }
        i = i + 1;
    }
    proof {
        assert(all.skip(n as int) =~= Seq::<Seq<u8>>::empty());
    }
}

/// Take `id` out of its place in the ascending vector `v`.
fn remove_id(v: &mut Vec<NodeId>, id: &NodeId)
    requires
        ids_wf(ids_view(old(v)@)),
        id.wf(),
    ensures
        ids_view(final(v)@) == spec_remove(ids_view(old(v)@), id@),
{
    let ghost s = ids_view(v@);
    let n: usize = v.len();
    let mut i: usize = 0;
    while i < n
        invariant
            i <= n,
            n == v@.len(),
            s == ids_view(v@),
            s == ids_view(old(v)@),
            ids_wf(s),
            id@.len() == 32,
            forall|j: int| 0 <= j < i ==> #[trigger] s[j] != id@,
        decreases n - i,
    {
        proof {
            assert(s[i as int] == v@[i as int]@);
        }
        let c: i8 = id_cmp(&v[i], id);
        if c == 0 {
            proof {
                lemma_remove_at(s, id@, i as int);
            }
            v.remove(i);
            proof {
                assert(ids_view(v@) =~= s.remove(i as int));
            }
            return ;
        }
        if c == 1 {
            proof {
                assert(!id_in(s, id@)) by {
                    assert forall|j: int| 0 <= j < s.len() implies #[trigger] s[j] != id@ by {
                        if j > i {
                            crate::ids::lemma_sorted_below(s, i as int, j);
                            crate::ids::lemma_lex_transitive(id@, s[i as int], s[j]);
                            crate::ids::lemma_lex_asymmetric(id@, s[j]);
                        } else if j == i {
                            crate::ids::lemma_lex_asymmetric(id@, s[i as int]);
                        }
                    }
                }
            }
            return ;
        }
        proof {
            crate::ids::lemma_lex_asymmetric(s[i as int], id@);
        }
        i = i + 1;
    }
    proof {
        assert(!id_in(s, id@));
    }
}

/// Neighbor convergence: from an empty set, a join report of two peers, a
/// neighbor-up of a third and a neighbor-down of the second leave exactly
/// the first and third peers visible.
pub proof fn lemma_neighbor_convergence(a: Seq<u8>, b: Seq<u8>, c: Seq<u8>)
    requires
        a.len() == 32,
        b.len() == 32,
        c.len() == 32,
        a != b,
        b != c,
    ensures
        ({
            let s1 = spec_apply(Seq::empty(), EventV::Joined { neighbors: seq![a, b] });
            let s2 = spec_apply(s1, EventV::NeighborUp { node_id: c });
            let s3 = spec_apply(s2, EventV::NeighborDown { node_id: b });
            forall|x: Seq<u8>| id_in(s3, x) <==> x == a || x == c
        }),
{
    let e: Seq<Seq<u8>> = Seq::empty();
    let reported = seq![a, b];
    assert(forall|i: int| 0 <= i < reported.len() ==> (#[trigger] reported[i]).len() == 32);
    assert(ids_wf(e));
    lemma_insert_all_props(e, reported);
    let s1 = spec_insert_all(e, reported);
    lemma_insert_props(s1, c);
    let s2 = spec_insert(s1, c);
    lemma_remove_props(s2, b);
    let s3 = spec_remove(s2, b);
    assert forall|x: Seq<u8>| id_in(s3, x) <==> x == a || x == c by {
        assert(id_in(reported, a)) by {
            assert(reported[0] == a);
        }
        assert(id_in(reported, b)) by {
            assert(reported[1] == b);
        }
        if id_in(reported, x) {
            assert(x == a || x == b);
        }
    }
}

} // verus!
