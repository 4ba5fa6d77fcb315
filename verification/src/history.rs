//! The persisted record of this user: nickname, keypair material, and the
//! rooms visited so far.
//!
//! Visited rooms form a map from a room's topic key (the topic identifier's
//! text form) to the moment of the last visit and the freshest ticket. The
//! records are kept in ascending order of that moment, so listing them
//! earliest-first is immediate and callers reverse for most-recent-first.
//! An update writes the entry for its topic key in place: the map never
//! grows by revisiting a room.

use vstd::prelude::*;
use crate::utils::clone_string;
use crate::errors::ChatError;
use crate::ids::hex_bytes_of;
use crate::ticket::ChatTicket;
use crate::ticket::TicketV;
use crate::ticket::ticket_wf;
use vstd::utf8::decode_utf8;
use vstd::utf8::encode_utf8;
use vstd::utf8::encode_utf8_decode_utf8;

verus! {

/// The topic key under which a room is recorded: the text form of its
/// topic identifier.
pub open spec fn topic_key(topic: Seq<u8>) -> Seq<char> {
    decode_utf8(hex_bytes_of(topic))
}

/// One visited room: its topic key, the moment of the last visit, and the
/// ticket as of that visit.
pub struct VisitedRoom {
    pub key: String,
    pub last_visited: u64,
    pub ticket: ChatTicket,
}

/// The mathematical picture of a visited room.
#[verifier::ext_equal]
pub struct RoomV {
    pub key: Seq<char>,
    pub ts: u64,
    pub ticket: TicketV,
}

impl View for VisitedRoom {
    type V = RoomV;

    open spec fn view(&self) -> RoomV {
        RoomV { key: self.key@, ts: self.last_visited, ticket: self.ticket@ }
    }
}

/// The persisted state: nickname, keypair material, and visited rooms.
pub struct RoomHistory {
    pub nickname: Option<String>,
    pub secret_key: Option<Vec<u8>>,
    pub rooms: Vec<VisitedRoom>,
}

/// The mathematical picture of the persisted state.
#[verifier::ext_equal]
pub struct HistoryV {
    pub nickname: Option<Seq<char>>,
    pub secret_key: Option<Seq<u8>>,
    pub rooms: Seq<RoomV>,
}

impl View for RoomHistory {
    type V = HistoryV;

    open spec fn view(&self) -> HistoryV {
        HistoryV {
            nickname: match self.nickname {
                Some(ref n) => Some(n@),
                None => None,
            },
            secret_key: match self.secret_key {
                Some(ref k) => Some(k@),
                None => None,
            },
            rooms: self.rooms@.map_values(|r: VisitedRoom| r@),
        }
    }
}

/// No topic key is recorded twice.
pub open spec fn keys_unique(s: Seq<RoomV>) -> bool {
    forall|i: int, j: int|
        0 <= i < j < s.len() ==> (#[trigger] s[i]).key != (#[trigger] s[j]).key
}

/// The records stand in ascending order of their last visit.
pub open spec fn ts_sorted(s: Seq<RoomV>) -> bool {
    forall|i: int, j: int| 0 <= i <= j < s.len() ==> (#[trigger] s[i]).ts <= (#[trigger] s[j]).ts
}

/// Every record holds a well-formed ticket under that ticket's own topic
/// key, the keys are unique, and the order is by last visit.
pub open spec fn rooms_wf(s: Seq<RoomV>) -> bool {
    &&& keys_unique(s)
    &&& ts_sorted(s)
    &&& forall|i: int|
        0 <= i < s.len() ==> ticket_wf((#[trigger] s[i]).ticket) && s[i].key == topic_key(
            s[i].ticket.topic,
        )
}

/// Whether `key` is recorded in `s`.
pub open spec fn key_in(s: Seq<RoomV>, key: Seq<char>) -> bool {
    exists|i: int| 0 <= i < s.len() && (#[trigger] s[i]).key == key
}

/// The place of `key` in `s`, when it is recorded there.
pub open spec fn key_index(s: Seq<RoomV>, key: Seq<char>) -> int {
    choose|i: int| 0 <= i < s.len() && (#[trigger] s[i]).key == key
}

/// What is recorded under `key`: the last visit and the ticket.
pub open spec fn lookup(s: Seq<RoomV>, key: Seq<char>) -> Option<(u64, TicketV)> {
    if key_in(s, key) {
        Some((s[key_index(s, key)].ts, s[key_index(s, key)].ticket))
    } else {
        None
    }
}

/// When `key` is recorded, its place is a real place.
pub proof fn lemma_key_index(s: Seq<RoomV>, key: Seq<char>)
    requires
        key_in(s, key),
    ensures
        0 <= key_index(s, key) < s.len(),
        s[key_index(s, key)].key == key,
{
}

/// With unique keys, a key stands in one place only.
pub proof fn lemma_key_unique(s: Seq<RoomV>, i: int, j: int)
    requires
        keys_unique(s),
        0 <= i < s.len(),
        0 <= j < s.len(),
        s[i].key == s[j].key,
    ensures
        i == j,
{
}

/// `s` with any record under `key` taken out.
pub open spec fn spec_drop_key(s: Seq<RoomV>, key: Seq<char>) -> Seq<RoomV> {
    if key_in(s, key) {
        s.remove(key_index(s, key))
    } else {
        s
    }
}

/// The place where a record visited at `now` belongs: after every record
/// visited then or earlier.
pub open spec fn ts_position(s: Seq<RoomV>, now: u64) -> int {
    choose|p: int|
        0 <= p <= s.len() && (forall|i: int| 0 <= i < p ==> (#[trigger] s[i]).ts <= now) && (p
            == s.len() || s[p].ts > now)
}

/// In an ascending sequence that place exists and is unique.
proof fn lemma_ts_position(s: Seq<RoomV>, now: u64, p: int)
    requires
        0 <= p <= s.len(),
        forall|i: int| 0 <= i < p ==> (#[trigger] s[i]).ts <= now,
        p == s.len() || s[p].ts > now,
    ensures
        ts_position(s, now) == p,
{
    assert(0 <= p <= s.len() && (forall|i: int| 0 <= i < p ==> (#[trigger] s[i]).ts <= now) && (p
        == s.len() || s[p].ts > now));
    let q = ts_position(s, now);
    if q < p {
        assert(s[q].ts <= now);
    }
    if p < q {
        assert(s[p].ts <= now);
    }
}

/// The map after recording a visit of `t` at `now`: the entry under the
/// ticket's topic key is written anew, in its place by time.
pub open spec fn spec_upsert(s: Seq<RoomV>, t: TicketV, now: u64) -> Seq<RoomV> {
    let dropped = spec_drop_key(s, topic_key(t.topic));
    dropped.insert(
        ts_position(dropped, now),
        RoomV { key: topic_key(t.topic), ts: now, ticket: t },
    )
}

/// Inserting a fresh entry at its place by time keeps the map well
/// formed.
pub proof fn lemma_insert_entry_wf(d: Seq<RoomV>, e: RoomV, p: int)
    requires
        rooms_wf(d),
        !key_in(d, e.key),
        ticket_wf(e.ticket),
        e.key == topic_key(e.ticket.topic),
        0 <= p <= d.len(),
        forall|i: int| 0 <= i < p ==> (#[trigger] d[i]).ts <= e.ts,
        p == d.len() || d[p].ts > e.ts,
    ensures
        rooms_wf(d.insert(p, e)),
{
    let r = d.insert(p, e);
    assert(forall|m: int| 0 <= m < p ==> r[m] == d[m]);
    assert(r[p] == e);
    assert(forall|m: int| p < m < r.len() ==> r[m] == d[m - 1]);
    assert forall|i: int, j: int|
        0 <= i < j < r.len() implies (#[trigger] r[i]).key != (#[trigger] r[j]).key by {
        if i != p && j != p {
            let i0 = if i < p {
                i
            } else {
                i - 1
            };
            let j0 = if j < p {
                j
            } else {
                j - 1
            };
            assert(r[i] == d[i0] && r[j] == d[j0]);
        } else if i == p {
            assert(r[j] == d[j - 1]);
            assert(!key_in(d, e.key));
            if r[j].key == e.key {
                assert(key_in(d, e.key)) by {
                    assert(d[j - 1].key == e.key);
                }
            }
        } else {
            assert(r[i] == d[i]);
            if r[i].key == e.key {
                assert(key_in(d, e.key)) by {
                    assert(d[i].key == e.key);
                }
            }
        }
    }
    assert forall|i: int, j: int| 0 <= i <= j < r.len() implies (#[trigger] r[i]).ts <= (
    #[trigger] r[j]).ts by {
        let i0 = if i < p {
            i
        } else {
            i - 1
        };
        let j0 = if j < p {
            j
        } else {
            j - 1
        };
        if i == p && j == p {
        } else if i == p {
            assert(r[j] == d[j0]);
            assert(d[p].ts > e.ts);
            assert(d[p].ts <= d[j0].ts);
        } else if j == p {
            assert(r[i] == d[i0]);
            assert(d[i0].ts <= e.ts);
        } else {
            assert(r[i] == d[i0] && r[j] == d[j0]);
        }
    }
    assert forall|i: int|
        0 <= i < r.len() implies ticket_wf((#[trigger] r[i]).ticket) && r[i].key == topic_key(
        r[i].ticket.topic,
    ) by {
        if i < p {
            assert(r[i] == d[i]);
        } else if i > p {
            assert(r[i] == d[i - 1]);
        }
    }
}

/// Inserting a fresh entry records it and moves nothing else.
pub proof fn lemma_insert_entry_lookup(d: Seq<RoomV>, e: RoomV, p: int)
    requires
        keys_unique(d),
        !key_in(d, e.key),
        0 <= p <= d.len(),
        keys_unique(d.insert(p, e)),
    ensures
        lookup(d.insert(p, e), e.key) == Some((e.ts, e.ticket)),
        forall|k: Seq<char>| k != e.key ==> lookup(d.insert(p, e), k) == lookup(d, k),
{
    let r = d.insert(p, e);
    assert(forall|m: int| 0 <= m < p ==> r[m] == d[m]);
    assert(r[p] == e);
    assert(forall|m: int| p < m < r.len() ==> r[m] == d[m - 1]);
    assert(lookup(r, e.key) == Some((e.ts, e.ticket))) by {
        assert(key_in(r, e.key)) by {
            assert(r[p].key == e.key);
        }
        lemma_key_index(r, e.key);
        lemma_key_unique(r, key_index(r, e.key), p);
    }
    assert forall|k: Seq<char>| k != e.key implies lookup(r, k) == lookup(d, k) by {
        if key_in(r, k) {
            let i = key_index(r, k);
            lemma_key_index(r, k);
            assert(i != p);
            let i0 = if i < p {
                i
            } else {
                i - 1
            };
            assert(r[i] == d[i0]);
            assert(key_in(d, k)) by {
                assert(d[i0].key == k);
            }
            lemma_key_index(d, k);
            lemma_key_unique(d, key_index(d, k), i0);
        } else {
            assert(!key_in(d, k)) by {
                if key_in(d, k) {
                    let m = key_index(d, k);
                    lemma_key_index(d, k);
                    let m1 = if m < p {
                        m
                    } else {
                        m + 1
                    };
                    assert(r[m1] == d[m]);
                    assert(key_in(r, k)) by {
                        assert(r[m1].key == k);
                    }
                }
            }
        }
    }
}

/// What an update does: the entry under the ticket's topic key holds the
/// new visit, every other entry is untouched, and the map grows only when
/// the key was new.
#[verifier::rlimit(100)]
pub proof fn lemma_upsert_props(s: Seq<RoomV>, t: TicketV, now: u64)
    requires
        rooms_wf(s),
        ticket_wf(t),
    ensures
        rooms_wf(spec_upsert(s, t, now)),
        lookup(spec_upsert(s, t, now), topic_key(t.topic)) == Some((now, t)),
        key_in(s, topic_key(t.topic)) ==> spec_upsert(s, t, now).len() == s.len(),
        !key_in(s, topic_key(t.topic)) ==> spec_upsert(s, t, now).len() == s.len() + 1,
{
    let key = topic_key(t.topic);
    let e = RoomV { key: key, ts: now, ticket: t };
    let dropped = spec_drop_key(s, key);
    lemma_drop_key_props(s, key);
    lemma_ts_position_exists(dropped, now);
    let p = ts_position(dropped, now);
    lemma_insert_entry_wf(dropped, e, p);
    lemma_insert_entry_lookup(dropped, e, p);
}

/// Some place satisfies the time-position description.
pub proof fn lemma_ts_position_exists(s: Seq<RoomV>, now: u64)
    requires
        ts_sorted(s),
    ensures
        0 <= ts_position(s, now) <= s.len(),
        forall|i: int| 0 <= i < ts_position(s, now) ==> (#[trigger] s[i]).ts <= now,
        ts_position(s, now) == s.len() || s[ts_position(s, now)].ts > now,
    decreases s.len(),
{
    if s.len() == 0 {
        lemma_ts_position(s, now, 0);
    } else if s[s.len() - 1].ts <= now {
        assert forall|i: int| 0 <= i < s.len() implies (#[trigger] s[i]).ts <= now by {
            assert(s[i].ts <= s[s.len() - 1].ts);
        }
        lemma_ts_position(s, now, s.len() as int);
    } else {
        let q = choose|q: int|
            0 <= q < s.len() && s[q].ts > now && (forall|i: int|
                0 <= i < q ==> (#[trigger] s[i]).ts <= now);
        lemma_first_above(s, now, 0);
        lemma_ts_position(s, now, q);
    }
}

/// Walking up an ascending sequence that ends above `now`, some first
/// record stands above `now`.
proof fn lemma_first_above(s: Seq<RoomV>, now: u64, from: int)
    requires
        ts_sorted(s),
        0 <= from < s.len(),
        s[s.len() - 1].ts > now,
        forall|i: int| 0 <= i < from ==> (#[trigger] s[i]).ts <= now,
    ensures
        exists|q: int|
            0 <= q < s.len() && (#[trigger] s[q]).ts > now && (forall|i: int|
                0 <= i < q ==> (#[trigger] s[i]).ts <= now),
    decreases s.len() - from,
{
    if s[from].ts > now {
        assert(0 <= from < s.len() && s[from].ts > now && (forall|i: int|
            0 <= i < from ==> (#[trigger] s[i]).ts <= now));
    } else {
        assert(from < s.len() - 1) by {
            if from == s.len() - 1 {
                assert(s[from].ts > now);
            }
        }
        lemma_first_above(s, now, from + 1);
    }
}

/// What dropping a key does: that entry goes, no other moves.
pub proof fn lemma_drop_key_props(s: Seq<RoomV>, key: Seq<char>)
    requires
        rooms_wf(s),
    ensures
        rooms_wf(spec_drop_key(s, key)),
        !key_in(spec_drop_key(s, key), key),
        forall|k: Seq<char>|
            k != key ==> lookup(spec_drop_key(s, key), k) == lookup(s, k),
        key_in(s, key) ==> spec_drop_key(s, key).len() == s.len() - 1,
        !key_in(s, key) ==> spec_drop_key(s, key) == s,
{
    if key_in(s, key) {
        lemma_key_index(s, key);
        let x = key_index(s, key);
        let r = s.remove(x);
        assert(forall|m: int| 0 <= m < x ==> r[m] == s[m]);
        assert(forall|m: int| x <= m < r.len() ==> r[m] == s[m + 1]);
        assert(rooms_wf(r)) by {
            assert forall|i: int, j: int|
                0 <= i < j < r.len() implies (#[trigger] r[i]).key != (#[trigger] r[j]).key by {
                let i0 = if i < x {
                    i
                } else {
                    i + 1
                };
                let j0 = if j < x {
                    j
                } else {
                    j + 1
                };
                assert(r[i] == s[i0] && r[j] == s[j0]);
            }
            assert forall|i: int, j: int| 0 <= i <= j < r.len() implies (#[trigger] r[i]).ts <= (
            #[trigger] r[j]).ts by {
                let i0 = if i < x {
                    i
                } else {
                    i + 1
                };
                let j0 = if j < x {
                    j
                } else {
                    j + 1
                };
                assert(r[i] == s[i0] && r[j] == s[j0]);
            }
            assert forall|i: int|
                0 <= i < r.len() implies ticket_wf((#[trigger] r[i]).ticket) && r[i].key
                == topic_key(r[i].ticket.topic) by {
                if i < x {
                    assert(r[i] == s[i]);
                } else {
                    assert(r[i] == s[i + 1]);
                }
            }
        }
        assert(!key_in(r, key)) by {
            if key_in(r, key) {
                let m = key_index(r, key);
                lemma_key_index(r, key);
                let m0 = if m < x {
                    m
                } else {
                    m + 1
                };
                assert(r[m] == s[m0]);
                lemma_key_unique(s, m0, x);
            }
        }
        assert forall|k: Seq<char>| k != key implies lookup(r, k) == lookup(s, k) by {
            if key_in(r, k) {
                let m = key_index(r, k);
                lemma_key_index(r, k);
                let m0 = if m < x {
                    m
                } else {
                    m + 1
                };
                assert(r[m] == s[m0]);
                assert(key_in(s, k)) by {
                    assert(s[m0].key == k);
                }
                lemma_key_index(s, k);
                lemma_key_unique(s, key_index(s, k), m0);
            } else {
                assert(!key_in(s, k)) by {
                    if key_in(s, k) {
                        let m = key_index(s, k);
                        lemma_key_index(s, k);
                        assert(m != x);
                        let m1 = if m < x {
                            m
                        } else {
                            m - 1
                        };
                        assert(r[m1] == s[m]);
                        assert(key_in(r, k)) by {
                            assert(r[m1].key == k);
                        }
                    }
                }
            }
        }
    }
}


/// History upsert law: recording a room twice under one topic writes its
/// entry in place, so the map is no larger after the second visit, and the
/// entry holds the later visit.
pub proof fn lemma_history_upsert_twice(s: Seq<RoomV>, t1: TicketV, t2: TicketV, n1: u64, n2: u64)
    requires
        rooms_wf(s),
        ticket_wf(t1),
        ticket_wf(t2),
        t1.topic == t2.topic,
    ensures
        ({
            let s1 = spec_upsert(s, t1, n1);
            let s2 = spec_upsert(s1, t2, n2);
            s2.len() == s1.len() && lookup(s2, topic_key(t2.topic)) == Some((n2, t2))
        }),
{
    lemma_upsert_props(s, t1, n1);
    let s1 = spec_upsert(s, t1, n1);
    assert(key_in(s1, topic_key(t2.topic)));
    lemma_upsert_props(s1, t2, n2);
}

impl RoomHistory {
    /// The visited-room map is well formed.
    pub open spec fn wf(&self) -> bool {
        rooms_wf(self@.rooms)
    }

    /// A history with nothing recorded yet.
    pub fn new() -> (r: RoomHistory)
        ensures
            r@.nickname is None,
            r@.secret_key is None,
            r@.rooms == Seq::<RoomV>::empty(),
            r.wf(),
    {
        let r = RoomHistory { nickname: None, secret_key: None, rooms: Vec::new() };
        proof {
            assert(r@.rooms =~= Seq::<RoomV>::empty());
        }
        r
    }

    /// The stored nickname, if any.
    pub fn get_nickname(&self) -> (r: Option<String>)
        ensures
            match r {
                Some(n) => self@.nickname == Some(n@),
                None => self@.nickname is None,
            },
    {
        match &self.nickname {
            Some(n) => Some(clone_string(n)),
            None => None,
        }
    }

    /// Store the nickname.
    pub fn set_nickname(&mut self, nickname: &str)
        ensures
            final(self)@.nickname == Some(nickname@),
            final(self)@.secret_key == old(self)@.secret_key,
            final(self)@.rooms == old(self)@.rooms,
    {
        self.nickname = Some(nickname.to_owned());
    }

    /// The stored keypair material, or `fresh` stored and returned when
    /// none was there. The caller draws `fresh` from a secure random
    /// source.
    pub fn get_secret_key(&mut self, fresh: Vec<u8>) -> (r: Vec<u8>)
        requires
            fresh@.len() == 32,
        ensures
            match old(self)@.secret_key {
                Some(k) => r@ == k && final(self)@.secret_key == old(self)@.secret_key,
                None => r@ == fresh@ && final(self)@.secret_key == Some(fresh@),
            },
            final(self)@.nickname == old(self)@.nickname,
            final(self)@.rooms == old(self)@.rooms,
    {
        match &self.secret_key {
            Some(k) => crate::ids::copy_bytes(k),
            None => {
                let copy = crate::ids::copy_bytes(&fresh);
                self.secret_key = Some(copy);
                fresh
            },
        }
    }

    /// Add or update a room in the list of visited rooms: the entry under
    /// the ticket's topic key comes to hold this visit, in its place by
    /// time.
    pub fn update_visited_room(&mut self, ticket: ChatTicket, now: u64)
        requires
            old(self).wf(),
            ticket.wf(),
        ensures
            final(self)@.rooms == spec_upsert(old(self)@.rooms, ticket@, now),
            final(self)@.nickname == old(self)@.nickname,
            final(self)@.secret_key == old(self)@.secret_key,
            final(self).wf(),
    {
        let ghost s = self@.rooms;
        let key = ticket.topic_id.to_hex();
        proof {
            vstd::utf8::encode_utf8_decode_utf8(key@);
            assert(key@ == topic_key(ticket@.topic));
            lemma_upsert_props(s, ticket@, now);
        }
        let n: usize = self.rooms.len();
        let mut i: usize = 0;
        while i < n
            invariant
                i <= n,
                n == self.rooms@.len(),
                s == self@.rooms,
                s == old(self)@.rooms,
                self@.nickname == old(self)@.nickname,
                self@.secret_key == old(self)@.secret_key,
                rooms_wf(s),
                ticket_wf(ticket@),
                key@ == topic_key(ticket@.topic),
                forall|j: int| 0 <= j < i ==> (#[trigger] s[j]).key != key@,
            decreases n - i,
        {
            proof {
                assert(s[i as int] == self.rooms@[i as int]@);
            }
            if crate::utils::str_eq(self.rooms[i].key.as_str(), key.as_str()) {
                proof {
                    assert(key_in(s, key@)) by {
                        assert(s[i as int].key == key@);
                    }
                    lemma_key_index(s, key@);
                    lemma_key_unique(s, key_index(s, key@), i as int);
                }
                self.rooms.remove(i);
                proof {
                    assert(self@.rooms =~= s.remove(i as int));
                    lemma_drop_key_props(s, key@);
                    assert(self@.rooms == spec_drop_key(s, key@));
                }
                let ghost dropped = self@.rooms;
                self.insert_by_time(VisitedRoom { key, last_visited: now, ticket });
                proof {
                    assert(self@.rooms == dropped.insert(
                        ts_position(dropped, now),
                        RoomV { key: key@, ts: now, ticket: ticket@ },
                    ));
                    assert(RoomV { key: key@, ts: now, ticket: ticket@ } == RoomV {
                        key: topic_key(ticket@.topic),
                        ts: now,
                        ticket: ticket@,
                    });
                    lemma_upsert_props(s, ticket@, now);
                    assert(self@.rooms == spec_upsert(s, ticket@, now));
                    assert(rooms_wf(self@.rooms));
                }
                return ;
            }
            i = i + 1;
        }
        proof {
            assert(!key_in(s, key@));
            assert(spec_drop_key(s, key@) == s);
        }
        self.insert_by_time(VisitedRoom { key, last_visited: now, ticket });
        proof {
            assert(self@.rooms == s.insert(
                ts_position(s, now),
                RoomV { key: key@, ts: now, ticket: ticket@ },
            ));
            assert(RoomV { key: key@, ts: now, ticket: ticket@ } == RoomV {
                key: topic_key(ticket@.topic),
                ts: now,
                ticket: ticket@,
            });
            assert(self@.rooms == spec_upsert(s, ticket@, now));
        }
    }

    /// Put one record into its place by time of last visit, after every
    /// record no younger.
    fn insert_by_time(&mut self, room: VisitedRoom)
        requires
            rooms_wf(old(self)@.rooms),
            !key_in(old(self)@.rooms, room@.key),
        ensures
            final(self)@.rooms == old(self)@.rooms.insert(
                ts_position(old(self)@.rooms, room@.ts),
                room@,
            ),
            final(self)@.nickname == old(self)@.nickname,
            final(self)@.secret_key == old(self)@.secret_key,
    {
        let ghost s = self@.rooms;
        proof {
            lemma_ts_position_exists(s, room.last_visited);
        }
        let n: usize = self.rooms.len();
        let mut j: usize = 0;
        while j < n
            invariant
                j <= n,
                n == self.rooms@.len(),
                s == self@.rooms,
                s == old(self)@.rooms,
                self@.nickname == old(self)@.nickname,
                self@.secret_key == old(self)@.secret_key,
                ts_sorted(s),
                forall|m: int| 0 <= m < j ==> (#[trigger] s[m]).ts <= room@.ts,
            decreases n - j,
        {
            proof {
                assert(s[j as int] == self.rooms@[j as int]@);
            }
            if self.rooms[j].last_visited > room.last_visited {
                proof {
                    lemma_ts_position(s, room@.ts, j as int);
                }
                let ghost rv = room@;
                self.rooms.insert(j, room);
                proof {
                    assert(self@.rooms =~= s.insert(j as int, rv));
                }
                return ;
            }
            j = j + 1;
        }
        proof {
            lemma_ts_position(s, room@.ts, n as int);
        }
        let ghost rv = room@;
        self.rooms.push(room);
        proof {
            assert(self@.rooms =~= s.insert(n as int, rv));
        }
    }

    /// Delete a room from the list of visited rooms; nothing happens when
    /// the topic key is not recorded.
    pub fn delete_visited_room(&mut self, topic: &str)
        requires
            old(self).wf(),
        ensures
            final(self)@.rooms == spec_drop_key(old(self)@.rooms, topic@),
            final(self)@.nickname == old(self)@.nickname,
            final(self)@.secret_key == old(self)@.secret_key,
            final(self).wf(),
    {
        let ghost s = self@.rooms;
        proof {
            lemma_drop_key_props(s, topic@);
        }
        let n: usize = self.rooms.len();
        let mut i: usize = 0;
        while i < n
            invariant
                i <= n,
                n == self.rooms@.len(),
                s == self@.rooms,
                s == old(self)@.rooms,
                self@.nickname == old(self)@.nickname,
                self@.secret_key == old(self)@.secret_key,
                rooms_wf(s),
                forall|j: int| 0 <= j < i ==> (#[trigger] s[j]).key != topic@,
            decreases n - i,
        {
            proof {
                assert(s[i as int] == self.rooms@[i as int]@);
            }
            if crate::utils::str_eq(self.rooms[i].key.as_str(), topic) {
                proof {
                    assert(key_in(s, topic@)) by {
                        assert(s[i as int].key == topic@);
                    }
                    lemma_key_index(s, topic@);
                    lemma_key_unique(s, key_index(s, topic@), i as int);
                }
                self.rooms.remove(i);
                proof {
                    assert(self@.rooms =~= s.remove(i as int));
                }
                return ;
            }
            i = i + 1;
        }
        proof {
            assert(!key_in(s, topic@));
        }
    }

    /// Return the list of visited rooms in order of most recently visited
    pub fn get_visited_rooms(&self) -> (r: Vec<ChatTicket>)
        requires
            self.wf(),
        ensures
            r@.len() == self@.rooms.len(),
            forall|i: int| 0 <= i < r@.len() ==> (#[trigger] r@[i])@ == self@.rooms[i].ticket,
    {
        let n: usize = self.rooms.len();
        let mut out: Vec<ChatTicket> = Vec::new();
        let mut i: usize = 0;
        while i < n
            invariant
                i <= n,
                n == self.rooms@.len(),
                out@.len() == i,
                forall|k: int| 0 <= k < i ==> (#[trigger] out@[k])@ == self@.rooms[k].ticket,
            decreases n - i,
        {
            proof {
                assert(self@.rooms[i as int] == self.rooms@[i as int]@);
            }
            out.push(self.rooms[i].ticket.duplicate());
            i = i + 1;
        }
        out
    }
}

/// The listing handed to the interface: for each visited room its topic
/// key, name and token text, most recently visited first.
pub fn get_visited_rooms(history: &RoomHistory) -> (r: Vec<(String, String, String)>)
    requires
        history.wf(),
    ensures
        r@.len() == history@.rooms.len(),
        forall|i: int|
            0 <= i < r@.len() ==> {
                let room = history@.rooms[r@.len() - 1 - i];
                (#[trigger] r@[i]).0@ == room.key && r@[i].1@ == room.ticket.name
                    && vstd::utf8::encode_utf8(r@[i].2@) == crate::ticket::spec_token(room.ticket)
            },
{
    let n: usize = history.rooms.len();
    let mut out: Vec<(String, String, String)> = Vec::new();
    let mut i: usize = 0;
    while i < n
        invariant
            i <= n,
            n == history.rooms@.len(),
            history.wf(),
            out@.len() == i,
            forall|k: int|
                0 <= k < i ==> {
                    let room = history@.rooms[n - 1 - k];
                    (#[trigger] out@[k]).0@ == room.key && out@[k].1@ == room.ticket.name
                        && vstd::utf8::encode_utf8(out@[k].2@) == crate::ticket::spec_token(
                        room.ticket,
                    )
                },
        decreases n - i,
    {
        let at: usize = n - 1 - i;
        proof {
            assert(history@.rooms[at as int] == history.rooms@[at as int]@);
            assert(ticket_wf(history@.rooms[at as int].ticket));
        }
        let room = &history.rooms[at];
        let token = room.ticket.serialize();
        out.push((clone_string(&room.key), clone_string(&room.ticket.name), token));
        i = i + 1;
    }
    out
}

} // verus!
