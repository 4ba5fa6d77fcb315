use chat_session::channel::Event;
use chat_session::channel::TicketOpts;
use chat_session::errors::ChatError;
use chat_session::history::RoomHistory;
use chat_session::ids::NodeId;
use chat_session::ids::TopicId;
use chat_session::session::SessionManager;
use chat_session::ticket::ChatTicket;

fn node(bytes: [u8; 32]) -> NodeId {
    NodeId::from_bytes(bytes.to_vec()).unwrap()
}

fn topic(bytes: [u8; 32]) -> TopicId {
    TopicId::from_bytes(bytes.to_vec()).unwrap()
}

#[test]
fn neighbor_convergence_scenario() {
    let a = node([0xaa; 32]);
    let b = node([0xbb; 32]);
    let c = node([0xcc; 32]);
    let base = ChatTicket { topic_id: topic([1u8; 32]), name: "den".to_string(), bootstrap: vec![] };
    let mut ch = chat_session::channel::Channel::new(base, node([1u8; 32]));
    ch.apply_event(&Event::Joined { neighbors: vec![a.clone(), b.clone()] });
    ch.apply_event(&Event::NeighborUp { node_id: c.clone() });
    ch.apply_event(&Event::NeighborDown { node_id: b });
    let seen = ch.neighbors();
    assert_eq!(seen, vec!["aa".repeat(32), "cc".repeat(32)]);
}

#[test]
fn message_events_leave_neighbors_alone() {
    let base = ChatTicket { topic_id: topic([1u8; 32]), name: "den".to_string(), bootstrap: vec![] };
    let mut ch = chat_session::channel::Channel::new(base, node([1u8; 32]));
    ch.apply_event(&Event::NeighborUp { node_id: node([7u8; 32]) });
    ch.apply_event(&Event::MessageReceived { from: node([9u8; 32]), text: "hi".to_string() });
    assert_eq!(ch.neighbors().len(), 1);
}

#[test]
fn safe_disconnect_without_init() {
    let mut sm = SessionManager::new();
    let mut h = RoomHistory::new();
    assert_eq!(sm.disconnect(&mut h, 1), Err(ChatError::NodeNotInitialized));
    assert!(h.get_visited_rooms().is_empty());
}

#[test]
fn init_is_idempotent_and_keeps_channel() {
    let mut sm = SessionManager::new();
    let mut h = RoomHistory::new();
    sm.init(node([1u8; 32]));
    sm.create_room(&mut h, "den", "ana", 10, true).unwrap();
    assert!(sm.get_topic_id().is_ok());
    sm.init(node([2u8; 32]));
    assert!(sm.get_topic_id().is_ok());
    let id = sm.get_node_id().unwrap();
    assert_eq!(id, node([1u8; 32]));
}

#[test]
fn create_room_requires_node() {
    let mut sm = SessionManager::new();
    let mut h = RoomHistory::new();
    assert_eq!(
        sm.create_room(&mut h, "den", "ana", 10, true),
        Err(ChatError::NodeNotInitialized)
    );
}

#[test]
fn single_active_channel_after_two_creates() {
    let mut sm = SessionManager::new();
    let mut h = RoomHistory::new();
    sm.init(node([1u8; 32]));
    sm.create_room(&mut h, "first", "ana", 10, true).unwrap();
    let first = sm.get_topic_id().unwrap();
    sm.create_room(&mut h, "second", "ana", 20, true).unwrap();
    let second = sm.get_topic_id().unwrap();
    assert_ne!(first, second);
    // Both rooms were recorded: the left one on leaving, the new one on
    // creation.
    assert_eq!(h.get_visited_rooms().len(), 2);
}

#[test]
fn created_token_joins_back() {
    let mut sm = SessionManager::new();
    let mut h = RoomHistory::new();
    sm.init(node([1u8; 32]));
    let token = sm.create_room(&mut h, "den", "ana", 10, true).unwrap();
    let parsed = ChatTicket::deserialize(&token).unwrap();
    assert_eq!(parsed.name, "den");
    // The creator put itself into the shared bootstrap set.
    assert_eq!(parsed.bootstrap, vec![node([1u8; 32])]);

    let mut sm2 = SessionManager::new();
    let mut h2 = RoomHistory::new();
    sm2.init(node([2u8; 32]));
    sm2.join_room(&mut h2, &token, "bob", 11, true).unwrap();
    assert_eq!(sm2.get_topic_id().unwrap(), parsed.topic_id.to_hex());
}

#[test]
fn join_room_rejects_bad_token() {
    let mut sm = SessionManager::new();
    let mut h = RoomHistory::new();
    sm.init(node([1u8; 32]));
    assert_eq!(
        sm.join_room(&mut h, "chat!!!", "ana", 10, true),
        Err(ChatError::InvalidTicket)
    );
}

#[test]
fn idempotent_leave() {
    let mut sm = SessionManager::new();
    let mut h = RoomHistory::new();
    sm.init(node([1u8; 32]));
    sm.create_room(&mut h, "den", "ana", 10, true).unwrap();
    let first = sm.leave_room(&mut h, 20);
    assert!(first.is_some());
    let after_first = h.get_visited_rooms().len();
    let second = sm.leave_room(&mut h, 30);
    assert!(second.is_none());
    assert_eq!(h.get_visited_rooms().len(), after_first);
}

#[test]
fn send_message_gates() {
    let mut sm = SessionManager::new();
    let mut h = RoomHistory::new();
    assert_eq!(sm.send_message("hi", true), Err(ChatError::NotInRoom));
    sm.init(node([1u8; 32]));
    assert_eq!(sm.send_message("hi", true), Err(ChatError::NotInRoom));
    sm.create_room(&mut h, "den", "ana", 10, true).unwrap();
    assert_eq!(sm.send_message("hi", true), Ok(()));
    assert_eq!(sm.send_message("hi", false), Err(ChatError::SendFailed));
}

#[test]
fn set_nickname_reports_push_need() {
    let mut sm = SessionManager::new();
    let mut h = RoomHistory::new();
    assert!(!sm.set_nickname(&mut h, "ana"));
    assert_eq!(h.get_nickname().as_deref(), Some("ana"));
    sm.init(node([1u8; 32]));
    sm.create_room(&mut h, "den", "ana", 10, true).unwrap();
    assert!(sm.set_nickname(&mut h, "anja"));
    assert_eq!(h.get_nickname().as_deref(), Some("anja"));
}

#[test]
fn latest_ticket_round_trips() {
    let mut sm = SessionManager::new();
    let mut h = RoomHistory::new();
    sm.init(node([1u8; 32]));
    assert_eq!(sm.get_latest_ticket().unwrap(), None);
    let token = sm.create_room(&mut h, "den", "ana", 10, true).unwrap();
    let latest = sm.get_latest_ticket().unwrap().unwrap();
    assert_eq!(latest.0, token);
    assert_eq!(latest.1, "den");
}

#[test]
fn generate_ticket_requires_room() {
    let sm = SessionManager::new();
    match sm.generate_ticket(TicketOpts::all()) {
        Err(e) => assert_eq!(e, ChatError::NotInRoom),
        Ok(_) => panic!("no room is active"),
    }
}

#[test]
fn history_upsert_updates_in_place() {
    let mut h = RoomHistory::new();
    let t1 = ChatTicket { topic_id: topic([1u8; 32]), name: "a".to_string(), bootstrap: vec![] };
    let t1b = ChatTicket {
        topic_id: topic([1u8; 32]),
        name: "a2".to_string(),
        bootstrap: vec![node([7u8; 32])],
    };
    let t2 = ChatTicket { topic_id: topic([2u8; 32]), name: "b".to_string(), bootstrap: vec![] };
    h.update_visited_room(t1, 10);
    h.update_visited_room(t2, 20);
    assert_eq!(h.get_visited_rooms().len(), 2);
    h.update_visited_room(t1b.clone(), 30);
    let rooms = h.get_visited_rooms();
    assert_eq!(rooms.len(), 2);
    // Ascending by time of last visit: callers reverse for most recent
    // first.
    assert_eq!(rooms[0].name, "b");
    assert_eq!(rooms[1], t1b);
    let listing = chat_session::history::get_visited_rooms(&h);
    assert_eq!(listing.len(), 2);
    assert_eq!(listing[0].1, "a2");
    assert_eq!(listing[0].0, "01".repeat(32));
    assert_eq!(listing[1].1, "b");
}

#[test]
fn history_delete_removes_and_tolerates_absence() {
    let mut h = RoomHistory::new();
    let t1 = ChatTicket { topic_id: topic([1u8; 32]), name: "a".to_string(), bootstrap: vec![] };
    h.update_visited_room(t1, 10);
    let key = "01".repeat(32);
    h.delete_visited_room(&key);
    assert!(h.get_visited_rooms().is_empty());
    h.delete_visited_room(&key);
    assert!(h.get_visited_rooms().is_empty());
}

#[test]
fn secret_key_generated_once() {
    let mut h = RoomHistory::new();
    let first = h.get_secret_key(vec![9u8; 32]);
    assert_eq!(first, vec![9u8; 32]);
    let second = h.get_secret_key(vec![7u8; 32]);
    assert_eq!(second, vec![9u8; 32]);
}

#[test]
fn timestamps_are_monotonic_enough() {
    let a = chat_session::utils::get_timestamp();
    let b = chat_session::utils::get_timestamp();
    assert!(b >= a);
}

#[test]
fn error_messages_are_fixed() {
    assert_eq!(ChatError::NodeNotInitialized.message(), "node not initialized");
    assert_eq!(ChatError::NotInRoom.message(), "not in a room");
    assert_eq!(ChatError::InvalidTicket.message(), "invalid ticket");
    assert_eq!(ChatError::ChannelJoinFailed.message(), "failed to join channel");
    assert_eq!(ChatError::SendFailed.message(), "failed to send message");
    assert_eq!(ChatError::StoreUnavailable.message(), "store unavailable");
}
