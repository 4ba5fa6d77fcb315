use chat_session::channel::TicketOpts;
use chat_session::errors::ChatError;
use chat_session::ids::NodeId;
use chat_session::ids::TopicId;
use chat_session::ticket::ChatTicket;

fn topic(bytes: [u8; 32]) -> TopicId {
    TopicId::from_bytes(bytes.to_vec()).unwrap()
}

fn node(bytes: [u8; 32]) -> NodeId {
    NodeId::from_bytes(bytes.to_vec()).unwrap()
}

/// A reference ticket carrying raw payload bytes under the same kind tag,
/// so the envelope can be compared against the original ticket machinery.
struct RawChat(Vec<u8>);

impl iroh_base::ticket::Ticket for RawChat {
    const KIND: &'static str = "chat";

    fn to_bytes(&self) -> Vec<u8> {
        self.0.clone()
    }

    fn from_bytes(bytes: &[u8]) -> Result<Self, iroh_base::ticket::Error> {
        Ok(RawChat(bytes.to_vec()))
    }
}

/// A reference ticket of a different kind.
struct RawNode(Vec<u8>);

impl iroh_base::ticket::Ticket for RawNode {
    const KIND: &'static str = "node";

    fn to_bytes(&self) -> Vec<u8> {
        self.0.clone()
    }

    fn from_bytes(bytes: &[u8]) -> Result<Self, iroh_base::ticket::Error> {
        Ok(RawNode(bytes.to_vec()))
    }
}

#[test]
fn round_trip_plain() {
    let t = ChatTicket {
        topic_id: topic([7u8; 32]),
        name: "kitchen".to_string(),
        bootstrap: vec![node([1u8; 32]), node([2u8; 32])],
    };
    let s = t.serialize();
    assert!(s.starts_with("chat"));
    let t2 = ChatTicket::deserialize(&s).unwrap();
    assert_eq!(t, t2);
}

#[test]
fn round_trip_empty_name_and_bootstrap() {
    let t = ChatTicket { topic_id: topic([0u8; 32]), name: String::new(), bootstrap: vec![] };
    let t2 = ChatTicket::deserialize(&t.serialize()).unwrap();
    assert_eq!(t, t2);
}

#[test]
fn round_trip_unicode_name() {
    let t = ChatTicket {
        topic_id: topic([0xab; 32]),
        name: "caf\u{e9} \u{1f600}".to_string(),
        bootstrap: vec![node([9u8; 32])],
    };
    let t2 = ChatTicket::deserialize(&t.serialize()).unwrap();
    assert_eq!(t, t2);
}

#[test]
fn envelope_matches_reference_ticket_machinery() {
    let t = ChatTicket {
        topic_id: topic([3u8; 32]),
        name: "lobby".to_string(),
        bootstrap: vec![node([4u8; 32])],
    };
    let payload = t.to_bytes();
    let reference = iroh_base::ticket::Ticket::serialize(&RawChat(payload));
    assert_eq!(t.serialize(), reference);
}

#[test]
fn payload_matches_postcard_encoding() {
    // Build two real public keys, as the original bootstrap set holds.
    let k1 = iroh_base::SecretKey::from_bytes(&[5u8; 32]).public();
    let k2 = iroh_base::SecretKey::from_bytes(&[6u8; 32]).public();
    let gossip_topic = iroh_gossip::proto::TopicId::from_bytes([8u8; 32]);
    let mut set = std::collections::BTreeSet::new();
    set.insert(k1);
    set.insert(k2);
    let reference = postcard::to_stdvec(&(gossip_topic, "den".to_string(), &set)).unwrap();

    let mut ids: Vec<NodeId> = set
        .iter()
        .map(|k| NodeId::from_bytes(k.as_bytes().to_vec()).unwrap())
        .collect();
    ids.sort_by(|a, b| a.bytes.cmp(&b.bytes));
    let t = ChatTicket { topic_id: topic([8u8; 32]), name: "den".to_string(), bootstrap: ids };
    assert_eq!(t.to_bytes(), reference);
}

#[test]
fn base32_matches_data_encoding() {
    let payload: Vec<u8> = (0u8..=200).collect();
    let ours = chat_session::base32::encode(&payload);
    let ours_text = String::from_utf8(ours).unwrap();
    let reference = data_encoding::BASE32_NOPAD.encode(&payload).to_ascii_lowercase();
    assert_eq!(ours_text, reference);
}

#[test]
fn base32_decodes_either_case() {
    let payload = b"neighborly".to_vec();
    let upper = data_encoding::BASE32_NOPAD.encode(&payload);
    let decoded = chat_session::base32::decode(upper.as_bytes()).unwrap();
    assert_eq!(decoded, payload);
    let lower = upper.to_ascii_lowercase();
    let decoded2 = chat_session::base32::decode(lower.as_bytes()).unwrap();
    assert_eq!(decoded2, payload);
}

#[test]
fn base32_rejects_bad_symbol_and_bad_length() {
    assert!(chat_session::base32::decode(b"a1").is_none());
    assert!(chat_session::base32::decode(b"abc").is_none());
    assert!(chat_session::base32::decode(b"a").is_none());
}

#[test]
fn wrong_kind_tag_fails() {
    let reference = iroh_base::ticket::Ticket::serialize(&RawNode(vec![0u8; 40]));
    assert!(reference.starts_with("node"));
    match ChatTicket::deserialize(&reference) {
        Err(e) => assert_eq!(e, ChatError::InvalidTicket),
        Ok(_) => panic!("a foreign kind tag must be refused"),
    }
}

#[test]
fn malformed_payload_fails() {
    assert_eq!(ChatTicket::deserialize("chat"), Err(ChatError::InvalidTicket));
    assert_eq!(ChatTicket::deserialize("chataaaa"), Err(ChatError::InvalidTicket));
    assert_eq!(ChatTicket::deserialize(""), Err(ChatError::InvalidTicket));
    assert_eq!(ChatTicket::deserialize("blörp"), Err(ChatError::InvalidTicket));
}

#[test]
fn deserialize_accepts_duplicate_unsorted_bootstrap() {
    // The wire format tolerates a repeating, unordered identifier list and
    // reads it as a set, as the original BTreeSet-based decoding did.
    let mut payload = Vec::new();
    payload.extend_from_slice(&[9u8; 32]); // topic
    payload.push(2); // name length
    payload.extend_from_slice(b"hi");
    payload.push(3); // three bootstrap entries
    payload.extend_from_slice(&[8u8; 32]);
    payload.extend_from_slice(&[2u8; 32]);
    payload.extend_from_slice(&[8u8; 32]);
    let text = iroh_base::ticket::Ticket::serialize(&RawChat(payload));
    let t = ChatTicket::deserialize(&text).unwrap();
    assert_eq!(t.bootstrap, vec![node([2u8; 32]), node([8u8; 32])]);
}

#[test]
fn new_named_draws_fresh_topics() {
    let t = ChatTicket::new_named("anonymous");
    assert_eq!(t.name, "anonymous");
    assert!(t.bootstrap.is_empty());
    assert_eq!(t.topic_id.as_bytes().len(), 32);
}

#[test]
fn generate_ticket_all_false_is_degenerate() {
    let base = ChatTicket {
        topic_id: topic([1u8; 32]),
        name: "attic".to_string(),
        bootstrap: vec![node([3u8; 32])],
    };
    let ch = chat_session::channel::Channel::new(base, node([5u8; 32]));
    let opts = TicketOpts { include_myself: false, include_bootstrap: false, include_neighbors: false };
    let t = ch.generate_ticket(opts);
    assert!(t.bootstrap.is_empty());
    assert_eq!(t.topic_id, topic([1u8; 32]));
    assert_eq!(t.name, "attic");
}

#[test]
fn generate_ticket_all_unions_sources() {
    let base = ChatTicket {
        topic_id: topic([1u8; 32]),
        name: "attic".to_string(),
        bootstrap: vec![node([3u8; 32])],
    };
    let mut ch = chat_session::channel::Channel::new(base, node([5u8; 32]));
    ch.apply_event(&chat_session::channel::Event::NeighborUp { node_id: node([4u8; 32]) });
    let t = ch.generate_ticket(TicketOpts::all());
    assert_eq!(
        t.bootstrap,
        vec![node([3u8; 32]), node([4u8; 32]), node([5u8; 32])]
    );
}
