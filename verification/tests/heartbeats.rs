use virgo::election::{election_tick, PermissivePolicy};
use virgo::heartbeat::{handle_datagram, handle_heartbeat, heartbeat_batch, Heartbeat};
use virgo::strmap::StrMap;
use virgo::table::{CanonicalPath, Endpoint, EndpointType, Node, PathID, RouteTable};

fn node_named(id: &str) -> Node {
    Node {
        node_id: String::from(id),
        identities: vec![CanonicalPath {
            full_path: PathID(format!("all.science.cs.ai.001::{}", id)),
            role_path: PathID(String::from("cs.ai.001")),
        }],
    }
}

fn table_with_a() -> RouteTable {
    let mut rt = RouteTable::new();
    rt.add_entry(
        PathID(String::from("cs.ai.001")),
        Endpoint {
            node_id: String::from("A"),
            addr: String::from("203.0.113.10:4000"),
            ep_type: EndpointType::Public,
            score: 150,
        },
    );
    rt
}

#[test]
fn encode_then_decode_yields_equal_structure() {
    let hb = Heartbeat { node_id: String::from("A"), role_path: String::from("cs.ai.001") };
    let bytes = hb.encode();
    let back = Heartbeat::decode(&bytes).expect("own encoding decodes");
    assert_eq!(back.node_id, "A");
    assert_eq!(back.role_path, "cs.ai.001");
}

#[test]
fn encode_matches_the_json_wire_form() {
    let hb = Heartbeat { node_id: String::from("A"), role_path: String::from("cs.ai.001") };
    let mut reference = std::collections::BTreeMap::new();
    reference.insert("node_id", "A");
    reference.insert("role_path", "cs.ai.001");
    let expected = serde_json::to_vec(&reference).expect("string map serializes");
    assert_eq!(hb.encode(), expected);
}

#[test]
fn decode_reads_a_plain_json_object() {
    let raw = String::from("{\"node_id\":\"B\",\"role_path\":\"ai.002\"}");
    let hb = Heartbeat::decode(raw.as_bytes()).expect("well-formed");
    assert_eq!(hb.node_id, "B");
    assert_eq!(hb.role_path, "ai.002");
}

#[test]
fn malformed_payload_is_rejected() {
    assert!(Heartbeat::decode(b"not json at all").is_none());
    assert!(Heartbeat::decode(b"{\"node_id\":\"A\"}").is_none());
    assert!(Heartbeat::decode(b"").is_none());
}

#[test]
fn batch_addresses_every_recorded_coordinator() {
    let node = node_named("claerk");
    let rt = table_with_a();
    let mut coords = StrMap::new();
    election_tick(&node, &rt, &mut coords, &PermissivePolicy, 10);
    let batch = heartbeat_batch(&node, &coords);
    assert_eq!(batch.len(), 1);
    assert_eq!(batch[0].0, "203.0.113.10:4000");
    let hb = Heartbeat { node_id: String::from("claerk"), role_path: String::from("cs.ai.001") };
    assert_eq!(batch[0].1, hb.encode());
}

#[test]
fn batch_is_empty_without_coordinators() {
    let node = node_named("claerk");
    let coords = StrMap::new();
    assert!(heartbeat_batch(&node, &coords).is_empty());
}

#[test]
fn self_heartbeat_refreshes_and_foreign_does_not() {
    // the local node A is itself the recorded coordinator for the role
    let node = node_named("A");
    let rt = table_with_a();
    let mut coords = StrMap::new();
    election_tick(&node, &rt, &mut coords, &PermissivePolicy, 10);
    assert_eq!(coords.get(&String::from("cs.ai.001")).expect("elected").last_seen, 10);

    // a self-heartbeat from A refreshes A's freshness
    let self_hb = Heartbeat { node_id: String::from("A"), role_path: String::from("cs.ai.001") };
    handle_datagram(&mut coords, &node.node_id, &self_hb.encode(), 42);
    assert_eq!(coords.get(&String::from("cs.ai.001")).expect("kept").last_seen, 42);

    // a heartbeat from B addressed to A does not
    let other_hb = Heartbeat { node_id: String::from("B"), role_path: String::from("cs.ai.001") };
    handle_datagram(&mut coords, &node.node_id, &other_hb.encode(), 77);
    assert_eq!(coords.get(&String::from("cs.ai.001")).expect("kept").last_seen, 42);
}

#[test]
fn member_heartbeat_does_not_refresh_on_a_non_coordinator_node() {
    // on node "claerk" the recorded coordinator is A, so even A's heartbeat
    // does not refresh: the local node is not itself the coordinator
    let node = node_named("claerk");
    let rt = table_with_a();
    let mut coords = StrMap::new();
    election_tick(&node, &rt, &mut coords, &PermissivePolicy, 10);
    let hb = Heartbeat { node_id: String::from("A"), role_path: String::from("cs.ai.001") };
    handle_heartbeat(&mut coords, &node.node_id, &hb, 99);
    assert_eq!(coords.get(&String::from("cs.ai.001")).expect("kept").last_seen, 10);
}

#[test]
fn heartbeat_for_unknown_role_changes_nothing() {
    let node = node_named("A");
    let mut coords = StrMap::<virgo::election::Coordinator>::new();
    let hb = Heartbeat { node_id: String::from("A"), role_path: String::from("ghost.role") };
    handle_heartbeat(&mut coords, &node.node_id, &hb, 5);
    assert!(coords.get(&String::from("ghost.role")).is_none());
}
