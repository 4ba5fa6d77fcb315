//! The session manager: the single owner of the node handle and of the (at
//! most one) active channel.
//!
//! The session moves between three states: no node, node ready, and channel
//! active, the last being a refinement of node ready. Creating or joining a
//! room first leaves any existing room, so at most one channel — and with
//! it at most one listener — is ever alive. The outside world performs the
//! actual network joins, sends and shutdowns; the caller reports each
//! outcome here, and every bookkeeping step is stated exactly by a
//! transition function on the session's mathematical picture.

use vstd::prelude::*;
use crate::channel::Channel;
use crate::channel::ChannelV;
use crate::channel::Event;
use crate::channel::TicketOpts;
use crate::channel::channel_wf;
use crate::channel::event_wf;
use crate::channel::spec_apply;
use crate::channel::spec_generate_ticket;
use crate::channel::spec_insert_all;
use crate::errors::ChatError;
use crate::history::HistoryV;
use crate::history::RoomHistory;
use crate::history::RoomV;
use crate::history::rooms_wf;
use crate::history::spec_upsert;
use crate::history::topic_key;
use crate::ids::NodeId;
use crate::ids::spec_insert;
use crate::ticket::ChatTicket;
use crate::ticket::TicketV;
use crate::ticket::parse_token;
use crate::ticket::spec_token;
use crate::ticket::ticket_wf;
use crate::utils::clone_string;
use vstd::utf8::decode_utf8;
use vstd::utf8::encode_utf8;
use vstd::utf8::encode_utf8_decode_utf8;

verus! {

/// The mathematical picture of a session.
#[verifier::ext_equal]
pub struct SessionV {
    pub node: Option<Seq<u8>>,
    pub channel: Option<ChannelV>,
    pub nickname: Option<Seq<char>>,
    pub latest_ticket: Option<Seq<char>>,
}

/// Top-level owner of the node handle and the active channel.
pub struct SessionManager {
    pub node: Option<NodeId>,
    pub channel: Option<Channel>,
    pub nickname: Option<String>,
    pub latest_ticket: Option<String>,
}

impl View for SessionManager {
    type V = SessionV;

    open spec fn view(&self) -> SessionV {
        SessionV {
            node: match self.node {
                Some(ref n) => Some(n@),
                None => None,
            },
            channel: match self.channel {
                Some(ref c) => Some(c@),
                None => None,
            },
            nickname: match self.nickname {
                Some(ref n) => Some(n@),
                None => None,
            },
            latest_ticket: match self.latest_ticket {
                Some(ref t) => Some(t@),
                None => None,
            },
        }
    }
}

/// A session is well formed when its node identifier holds 32 bytes and an
/// active channel belongs to that node: channel-active refines node-ready.
pub open spec fn session_wf(s: SessionV) -> bool {
    &&& match s.node {
        Some(n) => n.len() == 32,
        None => true,
    }
    &&& match s.channel {
        Some(c) => channel_wf(c) && s.node == Some(c.me),
        None => true,
    }
}

/// How many listener tasks serve this session: one per active channel.
pub open spec fn listeners_alive(s: SessionV) -> nat {
    if s.channel is Some {
        1
    } else {
        0
    }
}

/// The options that include every known peer source.
pub open spec fn all_opts() -> TicketOpts {
    TicketOpts { include_myself: true, include_bootstrap: true, include_neighbors: true }
}

/// The fullest ticket a channel can share: its identity with every known
/// peer in the bootstrap set.
pub open spec fn full_ticket(c: ChannelV) -> TicketV {
    spec_generate_ticket(c, all_opts())
}

/// What leaving does: with a channel active, its fullest ticket is
/// recorded in the history and the channel is dropped, yielding its topic
/// key; with none, nothing moves.
pub open spec fn spec_leave(s: SessionV, rooms: Seq<RoomV>, now: u64) -> (
    SessionV,
    Seq<RoomV>,
    Option<Seq<char>>,
) {
    match s.channel {
        None => (s, rooms, None),
        Some(c) => (
            SessionV { channel: None, ..s },
            spec_upsert(rooms, full_ticket(c), now),
            Some(topic_key(c.topic)),
        ),
    }
}

/// The channel state right after joining a room: the ticket's identity and
/// bootstrap set with the local peer added, and no neighbors yet.
pub open spec fn joined_channel(t: TicketV, me: Seq<u8>) -> ChannelV {
    ChannelV {
        topic: t.topic,
        name: t.name,
        me: me,
        bootstrap: spec_insert(t.bootstrap, me),
        neighbors: Seq::empty(),
    }
}

/// What creating a room does, given the fresh random `topic` that was
/// drawn and whether the outside join succeeded. Any existing channel is
/// left first; on success the new channel is installed, the nickname and
/// the fullest ticket are recorded, and that ticket's text is the result.
pub open spec fn spec_create_room(
    s: SessionV,
    h: HistoryV,
    topic: Seq<u8>,
    name: Seq<char>,
    nickname: Seq<char>,
    now: u64,
    join_ok: bool,
) -> (SessionV, HistoryV, Result<Seq<char>, ChatError>) {
    match s.node {
        None => (s, h, Err(ChatError::NodeNotInitialized)),
        Some(me) => {
            let (s1, rooms1, prior) = spec_leave(s, h.rooms, now);
            let h1 = HistoryV { rooms: rooms1, ..h };
            if !join_ok {
                (s1, h1, Err(ChatError::ChannelJoinFailed))
            } else {
                let c = joined_channel(
                    TicketV { topic: topic, name: name, bootstrap: Seq::empty() },
                    me,
                );
                let full = full_ticket(c);
                let token = decode_utf8(spec_token(full));
                (
                    SessionV {
                        node: s.node,
                        channel: Some(c),
                        nickname: Some(nickname),
                        latest_ticket: Some(token),
                    },
                    HistoryV {
                        nickname: Some(nickname),
                        secret_key: h.secret_key,
                        rooms: spec_upsert(rooms1, full, now),
                    },
                    Ok(token),
                )
            }
        },
    }
}

/// What joining a room does, given whether the outside join succeeded. Any
/// existing channel is left first; a token that denotes no ticket is
/// refused; on success the parsed ticket's channel is installed and the
/// parsed ticket itself is recorded.
pub open spec fn spec_join_room(
    s: SessionV,
    h: HistoryV,
    token: Seq<char>,
    nickname: Seq<char>,
    now: u64,
    join_ok: bool,
) -> (SessionV, HistoryV, Result<(), ChatError>) {
    match s.node {
        None => (s, h, Err(ChatError::NodeNotInitialized)),
        Some(me) => {
            let (s1, rooms1, prior) = spec_leave(s, h.rooms, now);
            let h1 = HistoryV { rooms: rooms1, ..h };
            match parse_token(encode_utf8(token)) {
                None => (s1, h1, Err(ChatError::InvalidTicket)),
                Some(t) => {
                    let s2 = SessionV { latest_ticket: Some(token), ..s1 };
                    if !join_ok {
                        (s2, h1, Err(ChatError::ChannelJoinFailed))
                    } else {
                        (
                            SessionV {
                                node: s.node,
                                channel: Some(joined_channel(t, me)),
                                nickname: Some(nickname),
                                latest_ticket: Some(token),
                            },
                            HistoryV {
                                nickname: Some(nickname),
                                secret_key: h.secret_key,
                                rooms: spec_upsert(rooms1, t, now),
                            },
                            Ok(()),
                        )
                    }
                },
            }
        },
    }
}

/// What disconnecting does: without a node it is refused; otherwise any
/// channel is left and the node handle is dropped.
pub open spec fn spec_disconnect(s: SessionV, rooms: Seq<RoomV>, now: u64) -> (
    SessionV,
    Seq<RoomV>,
    Result<(), ChatError>,
) {
    match s.node {
        None => (s, rooms, Err(ChatError::NodeNotInitialized)),
        Some(me) => {
            let (s1, rooms1, prior) = spec_leave(s, rooms, now);
            (SessionV { node: None, ..s1 }, rooms1, Ok(()))
        },
    }
}

/// What sending does: it is refused without an active channel, reported
/// failed when the outside send failed, and acknowledged otherwise.
pub open spec fn spec_send(s: SessionV, send_ok: bool) -> Result<(), ChatError> {
    if s.channel is None {
        Err(ChatError::NotInRoom)
    } else if !send_ok {
        Err(ChatError::SendFailed)
    } else {
        Ok(())
    }
}

/// A fixed placeholder topic, named where no room came to be.
pub open spec fn zero_topic() -> Seq<u8> {
    Seq::new(32, |i: int| 0u8)
}

/// The topic that explains a session's create-room outcome: the active
/// channel's topic, or the placeholder when none is active.
pub open spec fn drawn_topic(s: SessionV) -> Seq<u8> {
    match s.channel {
        Some(c) => c.topic,
        None => zero_topic(),
    }
}

/// Whether one drawn topic explains a create-room outcome: the step from
/// the old session and history to the new ones, with the given result, is
/// exactly what creating a room under that topic does.
pub open spec fn created_room(
    s0: SessionV,
    h0: HistoryV,
    topic: Seq<u8>,
    name: Seq<char>,
    nickname: Seq<char>,
    now: u64,
    join_ok: bool,
    s_new: SessionV,
    h_new: HistoryV,
    outcome: Result<Seq<char>, ChatError>,
) -> bool {
    let (s2, h2, rr) = spec_create_room(s0, h0, topic, name, nickname, now, join_ok);
    &&& topic.len() == 32
    &&& s_new == s2
    &&& h_new == h2
    &&& outcome == rr
}

impl SessionManager {
    /// The session is well formed.
    pub open spec fn wf(&self) -> bool {
        session_wf(self@)
    }

    /// A session with no node yet.
    pub fn new() -> (r: SessionManager)
        ensures
            r@.node is None,
            r@.channel is None,
            r@.nickname is None,
            r@.latest_ticket is None,
            r.wf(),
    {
        SessionManager { node: None, channel: None, nickname: None, latest_ticket: None }
    }

    /// Install a freshly spawned node. Idempotent: with a node already
    /// running nothing moves, in particular no active channel is lost;
    /// otherwise the node is installed and the rest of the session is
    /// reset.
    pub fn init(&mut self, node: NodeId)
        requires
            old(self).wf(),
            node.wf(),
        ensures
            old(self)@.node is Some ==> final(self)@ == old(self)@,
            old(self)@.node is None ==> final(self)@ == (SessionV {
                node: Some(node@),
                channel: None,
                nickname: None,
                latest_ticket: None,
            }),
            final(self).wf(),
    {
        if self.node.is_some() {
            return ;
        }
        self.node = Some(node);
        self.channel = None;
        self.nickname = None;
        self.latest_ticket = None;
    }

    /// Leave the currently joined room, recording its fullest ticket;
    /// yields the left room's topic key. Idempotent: with no channel
    /// active, nothing moves and nothing is yielded.
    pub fn leave_room(&mut self, history: &mut RoomHistory, now: u64) -> (r: Option<String>)
        requires
            old(self).wf(),
            old(history).wf(),
        ensures
            ({
                let (s2, rooms2, key) = spec_leave(old(self)@, old(history)@.rooms, now);
                &&& final(self)@ == s2
                &&& final(history)@.rooms == rooms2
                &&& final(history)@.nickname == old(history)@.nickname
                &&& final(history)@.secret_key == old(history)@.secret_key
                &&& match r {
                    Some(k) => key == Some(k@),
                    None => key is None,
                }
            }),
            final(self).wf(),
            final(history).wf(),
    {
        match self.channel.take() {
            None => {
                proof {
                    assert(self@ == old(self)@);
                }
                None
            },
            Some(ch) => {
                let opts = TicketOpts::all();
                proof {
                    assert(opts == all_opts());
                }
                let full = ch.generate_ticket(opts);
                history.update_visited_room(full, now);
                let id = ch.id();
                proof {
                    encode_utf8_decode_utf8(id@);
                }
                Some(id)
            },
        }
    }

    /// Create a new room under a fresh random topic and join it. The
    /// caller performs the outside join with the returned ticket's topic
    /// and reports its outcome through `join_ok`; the result is the
    /// fullest ticket's text, to be shared out of band.
    #[verifier::rlimit(100)]
    pub fn create_room(
        &mut self,
        history: &mut RoomHistory,
        name: &str,
        nickname: &str,
        now: u64,
        join_ok: bool,
    ) -> (r: Result<String, ChatError>)
        requires
            old(self).wf(),
            old(history).wf(),
        ensures
            ({
                let outcome: Result<Seq<char>, ChatError> = match r {
                    Ok(token) => Ok(token@),
                    Err(e) => Err(e),
                };
                created_room(
                    old(self)@,
                    old(history)@,
                    drawn_topic(final(self)@),
                    name@,
                    nickname@,
                    now,
                    join_ok,
                    final(self)@,
                    final(history)@,
                    outcome,
                )
            }),
            final(self).wf(),
            final(history).wf(),
    {
        let ghost s0 = self@;
        let ghost h0 = history@;
        if self.node.is_none() {
            proof {
                assert(zero_topic().len() == 32);
                assert(created_room(
                    s0,
                    h0,
                    zero_topic(),
                    name@,
                    nickname@,
                    now,
                    join_ok,
                    s0,
                    h0,
                    Err(ChatError::NodeNotInitialized),
                ));
            }
            return Err(ChatError::NodeNotInitialized);
        }
        self.leave_room(history, now);
        let ghost s1 = self@;
        let ghost h1 = history@;
        let ticket = ChatTicket::new_named(name);
        let ghost topic = ticket@.topic;
        if !join_ok {
            proof {
                assert(h1 == (HistoryV { rooms: h1.rooms, ..h0 }));
                assert(zero_topic().len() == 32);
                assert(created_room(
                    s0,
                    h0,
                    zero_topic(),
                    name@,
                    nickname@,
                    now,
                    join_ok,
                    s1,
                    h1,
                    Err(ChatError::ChannelJoinFailed),
                ));
            }
            return Err(ChatError::ChannelJoinFailed);
        }
        let me = match &self.node {
            Some(n) => n.duplicate(),
            None => {
                proof {
                    assert(false);
                }
                return Err(ChatError::NodeNotInitialized);
            },
        };
        let ghost me_v = s0.node.unwrap();
        let ghost tv = TicketV { topic: topic, name: name@, bootstrap: Seq::<Seq<u8>>::empty() };
        let ghost c_spec = joined_channel(tv, me_v);
        proof {
            assert(ticket@ == tv);
            assert(me@ == me_v);
        }
        let channel = Channel::new(ticket, me);
        let opts = TicketOpts::all();
        proof {
            assert(opts == all_opts());
            assert(channel@.topic == c_spec.topic);
            assert(channel@.name == c_spec.name);
            assert(channel@.me == c_spec.me);
            assert(channel@.bootstrap == c_spec.bootstrap);
            assert(channel@.neighbors == c_spec.neighbors);
            assert(channel@ == c_spec);
        }
        let full = channel.generate_ticket(opts);
        let ghost full_spec = full_ticket(c_spec);
        proof {
            assert(full@ == full_spec);
        }
        let token = full.serialize();
        proof {
            encode_utf8_decode_utf8(token@);
            assert(token@ == decode_utf8(spec_token(full_spec)));
        }
        history.set_nickname(nickname);
        history.update_visited_room(full, now);
        self.channel = Some(channel);
        self.nickname = Some(nickname.to_owned());
        self.latest_ticket = Some(clone_string(&token));
        proof {
            let (s2, h2, rr) = spec_create_room(s0, h0, topic, name@, nickname@, now, join_ok);
            assert(self@.node == s2.node);
            assert(self@.channel == s2.channel);
            assert(self@.nickname == s2.nickname);
            assert(self@.latest_ticket == s2.latest_ticket);
            assert(self@ == s2);
            assert(history@.nickname == h2.nickname);
            assert(history@.secret_key == h2.secret_key);
            assert(history@.rooms == h2.rooms);
            assert(history@ == h2);
            assert(created_room(
                s0,
                h0,
                topic,
                name@,
                nickname@,
                now,
                join_ok,
                self@,
                history@,
                Ok(token@),
            ));
        }
        Ok(token)
    }

    /// Join an existing room from its ticket text. The caller performs the
    /// outside join with the parsed ticket and reports its outcome through
    /// `join_ok`.
    pub fn join_room(
        &mut self,
        history: &mut RoomHistory,
        token: &str,
        nickname: &str,
        now: u64,
        join_ok: bool,
    ) -> (r: Result<(), ChatError>)
        requires
            old(self).wf(),
            old(history).wf(),
        ensures
            ({
                let (s2, h2, rr) = spec_join_room(
                    old(self)@,
                    old(history)@,
                    token@,
                    nickname@,
                    now,
                    join_ok,
                );
                &&& final(self)@ == s2
                &&& final(history)@ == h2
                &&& r == rr
            }),
            final(self).wf(),
            final(history).wf(),
    {
        let ghost s0 = self@;
        let ghost h0 = history@;
        if self.node.is_none() {
            return Err(ChatError::NodeNotInitialized);
        }
        self.leave_room(history, now);
        let ghost s1 = self@;
        let ghost h1 = history@;
        let parsed = match ChatTicket::deserialize(token) {
            Ok(t) => t,
            Err(e) => {
                proof {
                    assert(h1 == (HistoryV { rooms: h1.rooms, ..h0 }));
                }
                return Err(ChatError::InvalidTicket);
            },
        };
        self.latest_ticket = Some(token.to_owned());
        if !join_ok {
            proof {
                assert(self@ == (SessionV { latest_ticket: Some(token@), ..s1 }));
                assert(h1 == (HistoryV { rooms: h1.rooms, ..h0 }));
            }
            return Err(ChatError::ChannelJoinFailed);
        }
        let me = match &self.node {
            Some(n) => n.duplicate(),
            None => {
                proof {
                    assert(false);
                }
                return Err(ChatError::NodeNotInitialized);
            },
        };
        let ghost parsed_v = parsed@;
        let ghost me_v = s0.node.unwrap();
        let ghost c_spec = joined_channel(parsed_v, me_v);
        proof {
            assert(me@ == me_v);
        }
        let channel = Channel::new(parsed, me);
        proof {
            assert(channel@.topic == c_spec.topic);
            assert(channel@.name == c_spec.name);
            assert(channel@.me == c_spec.me);
            assert(channel@.bootstrap == c_spec.bootstrap);
            assert(channel@.neighbors == c_spec.neighbors);
            assert(channel@ == c_spec);
        }
        history.set_nickname(nickname);
        let ticket_again = match ChatTicket::deserialize(token) {
            Ok(t) => t,
            Err(e) => {
                proof {
                    assert(false);
                }
                return Err(ChatError::InvalidTicket);
            },
        };
        history.update_visited_room(ticket_again, now);
        self.channel = Some(channel);
        self.nickname = Some(nickname.to_owned());
        proof {
            let (s2, h2, rr) = spec_join_room(s0, h0, token@, nickname@, now, join_ok);
            assert(self@.node == s2.node);
            assert(self@.channel == s2.channel);
            assert(self@.nickname == s2.nickname);
            assert(self@.latest_ticket == s2.latest_ticket);
            assert(self@ == s2);
            assert(history@.nickname == h2.nickname);
            assert(history@.secret_key == h2.secret_key);
            assert(history@.rooms == h2.rooms);
            assert(history@ == h2);
        }
        Ok(())
    }

    /// Forward a message through the active channel's send handle. The
    /// caller performs the outside send and reports its outcome through
    /// `send_ok`; without an active channel nothing may be sent.
    pub fn send_message(&self, message: &str, send_ok: bool) -> (r: Result<(), ChatError>)
        ensures
            r == spec_send(self@, send_ok),
    {
        if self.channel.is_none() {
            return Err(ChatError::NotInRoom);
        }
        if !send_ok {
            return Err(ChatError::SendFailed);
        }
        Ok(())
    }

    /// Record the nickname, in the session and in the history; the result
    /// says whether an update should also be pushed over the send handle,
    /// which is exactly when a channel is active.
    pub fn set_nickname(&mut self, history: &mut RoomHistory, nickname: &str) -> (r: bool)
        requires
            old(self).wf(),
            old(history).wf(),
        ensures
            final(self)@ == (SessionV { nickname: Some(nickname@), ..old(self)@ }),
            final(history)@.nickname == Some(nickname@),
            final(history)@.rooms == old(history)@.rooms,
            final(history)@.secret_key == old(history)@.secret_key,
            r == (old(self)@.channel is Some),
            final(self).wf(),
            final(history).wf(),
    {
        self.nickname = Some(nickname.to_owned());
        history.set_nickname(nickname);
        proof {
            assert(self@ == (SessionV { nickname: Some(nickname@), ..old(self)@ }));
        }
        self.channel.is_some()
    }

    /// Leave any room and drop the node handle; the caller shuts the
    /// outside node down. Without a node this reports that none is
    /// running, and nothing moves.
    pub fn disconnect(&mut self, history: &mut RoomHistory, now: u64) -> (r: Result<
        (),
        ChatError,
    >)
        requires
            old(self).wf(),
            old(history).wf(),
        ensures
            ({
                let (s2, rooms2, rr) = spec_disconnect(old(self)@, old(history)@.rooms, now);
                &&& final(self)@ == s2
                &&& final(history)@.rooms == rooms2
                &&& final(history)@.nickname == old(history)@.nickname
                &&& final(history)@.secret_key == old(history)@.secret_key
                &&& r == rr
            }),
            final(self).wf(),
            final(history).wf(),
    {
        if self.node.is_none() {
            return Err(ChatError::NodeNotInitialized);
        }
        self.leave_room(history, now);
        self.node = None;
        proof {
            let (s2, rooms2, rr) = spec_disconnect(old(self)@, old(history)@.rooms, now);
            assert(self@.node == s2.node);
            assert(self@.channel == s2.channel);
            assert(self@.nickname == s2.nickname);
            assert(self@.latest_ticket == s2.latest_ticket);
            assert(self@ == s2);
        }
        Ok(())
    }

    /// The active room's topic key, refused without an active channel.
    pub fn get_topic_id(&self) -> (r: Result<String, ChatError>)
        ensures
            match r {
                Ok(id) => self@.channel is Some && id@ == topic_key(self@.channel.unwrap().topic),
                Err(e) => self@.channel is None && e == ChatError::NotInRoom,
            },
    {
        match &self.channel {
            None => Err(ChatError::NotInRoom),
            Some(ch) => {
                let id = ch.id();
                proof {
                    encode_utf8_decode_utf8(id@);
                }
                Ok(id)
            },
        }
    }

    /// The local node's identifier, refused while no node runs.
    pub fn get_node_id(&self) -> (r: Result<NodeId, ChatError>)
        ensures
            match r {
                Ok(id) => self@.node == Some(id@),
                Err(e) => self@.node is None && e == ChatError::NodeNotInitialized,
            },
    {
        match &self.node {
            None => Err(ChatError::NodeNotInitialized),
            Some(n) => Ok(n.duplicate()),
        }
    }

    /// Rebuild a shareable ticket from the active channel, refused without
    /// an active channel.
    pub fn generate_ticket(&self, opts: TicketOpts) -> (r: Result<ChatTicket, ChatError>)
        requires
            self.wf(),
        ensures
            match r {
                Ok(t) => self@.channel is Some && t@ == spec_generate_ticket(
                    self@.channel.unwrap(),
                    opts,
                ) && t.wf(),
                Err(e) => self@.channel is None && e == ChatError::NotInRoom,
            },
    {
        match &self.channel {
            None => Err(ChatError::NotInRoom),
            Some(ch) => Ok(ch.generate_ticket(opts)),
        }
    }

    /// The stored room ticket text with its room name, empty when no room
    /// was entered yet; a stored text that denotes no ticket is refused.
    pub fn get_latest_ticket(&self) -> (r: Result<Option<(String, String)>, ChatError>)
        ensures
            match r {
                Ok(None) => self@.latest_ticket is None,
                Ok(Some(pair)) => {
                    &&& self@.latest_ticket == Some(pair.0@)
                    &&& parse_token(encode_utf8(pair.0@)) is Some
                    &&& pair.1@ == parse_token(encode_utf8(pair.0@)).unwrap().name
                },
                Err(e) => {
                    &&& self@.latest_ticket is Some
                    &&& parse_token(encode_utf8(self@.latest_ticket.unwrap())) is None
                    &&& e == ChatError::InvalidTicket
                },
            },
    {
        match &self.latest_ticket {
            None => Ok(None),
            Some(token) => {
                match ChatTicket::deserialize(token.as_str()) {
                    Ok(t) => Ok(Some((clone_string(token), t.name))),
                    Err(e) => Err(ChatError::InvalidTicket),
                }
            },
        }
    }

    /// Apply one inbound membership event to the active channel's neighbor
    /// set; without an active channel the event falls away.
    pub fn apply_event(&mut self, event: &Event)
        requires
            old(self).wf(),
            event_wf(event@),
        ensures
            old(self)@.channel is None ==> final(self)@ == old(self)@,
            old(self)@.channel is Some ==> final(self)@ == (SessionV {
                channel: Some(
                    ChannelV {
                        neighbors: spec_apply(old(self)@.channel.unwrap().neighbors, event@),
                        ..old(self)@.channel.unwrap()
                    },
                ),
                ..old(self)@
            }),
            final(self).wf(),
    {
        match &mut self.channel {
            None => {
                proof {
                    assert(self@ == old(self)@);
                }
            },
            Some(ch) => {
                ch.apply_event(event);
                proof {
                    let c2 = ChannelV {
                        neighbors: spec_apply(old(self)@.channel.unwrap().neighbors, event@),
                        ..old(self)@.channel.unwrap()
                    };
                    assert(ch@.topic == c2.topic);
                    assert(ch@.name == c2.name);
                    assert(ch@.me == c2.me);
                    assert(ch@.bootstrap == c2.bootstrap);
                    assert(ch@.neighbors == c2.neighbors);
                    assert(ch@ == c2);
                    assert(self@ == (SessionV { channel: Some(c2), ..old(self)@ }));
                }
            },
        }
    }
}

/// Single active channel: after one room is created and then another,
/// exactly one listener serves the session, and the topic accessor reaches
/// only the second room's topic, which is not the first one's.
pub proof fn lemma_single_active_channel(
    s0: SessionV,
    h0: HistoryV,
    t1: Seq<u8>,
    t2: Seq<u8>,
    name1: Seq<char>,
    name2: Seq<char>,
    nick: Seq<char>,
    now1: u64,
    now2: u64,
)
    requires
        s0.node is Some,
        t1.len() == 32,
        t2.len() == 32,
        t1 != t2,
    ensures
        ({
            let (s1, h1, r1) = spec_create_room(s0, h0, t1, name1, nick, now1, true);
            let (s2, h2, r2) = spec_create_room(s1, h1, t2, name2, nick, now2, true);
            &&& listeners_alive(s2) == 1
            &&& s2.channel.unwrap().topic == t2
            &&& s2.channel.unwrap().topic != t1
        }),
{
}

/// Idempotent leave: leaving twice in a row succeeds twice, and the second
/// leave moves nothing — the session, the history and the yielded key all
/// say so.
pub proof fn lemma_idempotent_leave(s: SessionV, rooms: Seq<RoomV>, now1: u64, now2: u64)
    ensures
        ({
            let (s1, rooms1, key1) = spec_leave(s, rooms, now1);
            let (s2, rooms2, key2) = spec_leave(s1, rooms1, now2);
            &&& s2 == s1
            &&& rooms2 == rooms1
            &&& key2 is None
        }),
{
}

/// Safe disconnect: disconnecting without a prior `init` reports that no
/// node is running and moves nothing.
pub proof fn lemma_safe_disconnect(s: SessionV, rooms: Seq<RoomV>, now: u64)
    requires
        s.node is None,
    ensures
        spec_disconnect(s, rooms, now) == (s, rooms, Err::<(), ChatError>(
            ChatError::NodeNotInitialized,
        )),
{
}

} // verus!
