use virgo::election::{election_tick, MemberListPolicy, PermissivePolicy};
use virgo::strmap::StrMap;
use virgo::table::{CanonicalPath, Endpoint, EndpointType, Node, PathID, RouteTable};

fn ep(node: &str, addr: &str, t: EndpointType, score: u32) -> Endpoint {
    Endpoint { node_id: String::from(node), addr: String::from(addr), ep_type: t, score }
}

fn role(s: &str) -> PathID {
    PathID(String::from(s))
}

fn demo_node() -> Node {
    Node {
        node_id: String::from("claerk"),
        identities: vec![
            CanonicalPath {
                full_path: PathID(String::from("all.science.cs.ai.001::claerk")),
                role_path: role("cs.ai.001"),
            },
            CanonicalPath {
                full_path: PathID(String::from("all.science.ai.002::claerk")),
                role_path: role("ai.002"),
            },
        ],
    }
}

fn demo_table() -> RouteTable {
    let mut rt = RouteTable::new();
    rt.add_entry(role("cs.ai.001"), ep("A", "203.0.113.10:4000", EndpointType::Public, 150));
    rt.add_entry(role("cs.ai.001"), ep("B", "10.0.0.12:4000", EndpointType::Private, 80));
    rt.add_entry(role("cs.ai.001"), ep("C", "100.64.0.5:4000", EndpointType::Tunnel, 50));
    rt
}

#[test]
fn get_all_keeps_insertion_order_and_unknown_is_absent() {
    let rt = demo_table();
    let eps = rt.get_all(&role("cs.ai.001")).expect("known role");
    assert_eq!(eps.len(), 3);
    assert_eq!(eps[0].node_id, "A");
    assert_eq!(eps[1].node_id, "B");
    assert_eq!(eps[2].node_id, "C");
    assert!(rt.get_all(&role("nope")).is_none());
}

#[test]
fn best_endpoints_sorted_descending() {
    let mut rt = RouteTable::new();
    rt.add_entry(role("r"), ep("low", "h1:1", EndpointType::Tunnel, 50));
    rt.add_entry(role("r"), ep("high", "h2:1", EndpointType::Public, 150));
    rt.add_entry(role("r"), ep("mid", "h3:1", EndpointType::Private, 80));
    let best = rt.get_best_endpoints(&role("r")).expect("known role");
    assert_eq!(best[0].node_id, "high");
    assert_eq!(best[1].node_id, "mid");
    assert_eq!(best[2].node_id, "low");
    assert!(rt.get_best_endpoints(&role("missing")).is_none());
}

#[test]
fn best_endpoints_ties_keep_insertion_order() {
    let mut rt = RouteTable::new();
    rt.add_entry(role("r"), ep("first", "h1:1", EndpointType::Private, 80));
    rt.add_entry(role("r"), ep("second", "h2:1", EndpointType::Private, 80));
    rt.add_entry(role("r"), ep("top", "h3:1", EndpointType::Public, 150));
    let best = rt.get_best_endpoints(&role("r")).expect("known role");
    assert_eq!(best[0].node_id, "top");
    assert_eq!(best[1].node_id, "first");
    assert_eq!(best[2].node_id, "second");
}

#[test]
fn update_scores_stays_within_jitter_of_base() {
    let mut rt = demo_table();
    for _ in 0..5 {
        rt.update_scores();
        let eps = rt.get_all(&role("cs.ai.001")).expect("known role");
        assert_eq!(eps.len(), 3);
        assert_eq!(eps[0].node_id, "A");
        assert!(eps[0].score >= 140 && eps[0].score <= 160);
        assert!(eps[1].score >= 70 && eps[1].score <= 90);
        assert!(eps[2].score >= 40 && eps[2].score <= 60);
    }
}

#[test]
fn tick_elects_highest_scoring_candidate() {
    let node = demo_node();
    let rt = demo_table();
    let mut coords = StrMap::new();
    election_tick(&node, &rt, &mut coords, &PermissivePolicy, 100);
    let c = coords.get(&String::from("cs.ai.001")).expect("elected");
    assert_eq!(c.node_id, "A");
    assert_eq!(c.endpoint.addr, "203.0.113.10:4000");
    assert_eq!(c.last_seen, 100);
}

#[test]
fn tick_breaks_score_ties_by_insertion_order() {
    let node = demo_node();
    let mut rt = RouteTable::new();
    rt.add_entry(role("cs.ai.001"), ep("X", "h1:1", EndpointType::Private, 80));
    rt.add_entry(role("cs.ai.001"), ep("Y", "h2:1", EndpointType::Private, 80));
    let mut coords = StrMap::new();
    election_tick(&node, &rt, &mut coords, &PermissivePolicy, 5);
    let c = coords.get(&String::from("cs.ai.001")).expect("elected");
    assert_eq!(c.node_id, "X");
}

#[test]
fn role_without_candidates_stays_absent() {
    let node = demo_node();
    let rt = demo_table(); // nothing under ai.002
    let mut coords = StrMap::new();
    election_tick(&node, &rt, &mut coords, &PermissivePolicy, 100);
    assert!(coords.get(&String::from("ai.002")).is_none());
    election_tick(&node, &rt, &mut coords, &PermissivePolicy, 200);
    assert!(coords.get(&String::from("ai.002")).is_none());
}

#[test]
fn role_without_eligible_candidates_stays_absent() {
    let node = demo_node();
    let rt = demo_table();
    let nobody = MemberListPolicy { members: Vec::new() };
    let mut coords = StrMap::new();
    election_tick(&node, &rt, &mut coords, &nobody, 100);
    assert!(coords.get(&String::from("cs.ai.001")).is_none());
    election_tick(&node, &rt, &mut coords, &nobody, 200);
    assert!(coords.get(&String::from("cs.ai.001")).is_none());
}

#[test]
fn fresh_coordinator_not_replaced_by_better_candidate() {
    let node = demo_node();
    let mut rt = RouteTable::new();
    rt.add_entry(role("cs.ai.001"), ep("B", "10.0.0.12:4000", EndpointType::Private, 80));
    let mut coords = StrMap::new();
    election_tick(&node, &rt, &mut coords, &PermissivePolicy, 100);
    assert_eq!(coords.get(&String::from("cs.ai.001")).expect("elected").node_id, "B");
    // a higher-scoring candidate appears while B is still fresh
    rt.add_entry(role("cs.ai.001"), ep("A", "203.0.113.10:4000", EndpointType::Public, 150));
    election_tick(&node, &rt, &mut coords, &PermissivePolicy, 110); // age 10 <= 15
    let kept = coords.get(&String::from("cs.ai.001")).expect("still there");
    assert_eq!(kept.node_id, "B");
    assert_eq!(kept.last_seen, 100);
    // once stale, the better candidate takes over
    election_tick(&node, &rt, &mut coords, &PermissivePolicy, 116); // age 16 > 15
    let replaced = coords.get(&String::from("cs.ai.001")).expect("re-elected");
    assert_eq!(replaced.node_id, "A");
    assert_eq!(replaced.last_seen, 116);
}

#[test]
fn stale_coordinator_with_no_eligible_candidate_becomes_absent() {
    let node = demo_node();
    let rt = demo_table();
    let only_b = MemberListPolicy { members: vec![String::from("B")] };
    let mut coords = StrMap::new();
    election_tick(&node, &rt, &mut coords, &only_b, 0);
    assert_eq!(coords.get(&String::from("cs.ai.001")).expect("elected").node_id, "B");
    // the membership policy now admits nobody; the coordinator is stale
    let nobody = MemberListPolicy { members: Vec::new() };
    election_tick(&node, &rt, &mut coords, &nobody, 20); // age 20 > 15
    assert!(coords.get(&String::from("cs.ai.001")).is_none());
}
