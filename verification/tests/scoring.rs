use virgo::routing::{Endpoint, EndpointKind, PathEntry, ScoringStrategy};

#[test]
fn base_scores_by_tier() {
    assert_eq!(EndpointKind::Public.base_score(), 100);
    assert_eq!(EndpointKind::Private.base_score(), 80);
    assert_eq!(EndpointKind::Tunnel.base_score(), 50);
}

#[test]
fn new_endpoint_starts_at_base() {
    let ep = Endpoint::new(EndpointKind::Public, String::from("203.0.113.10:4000"));
    assert_eq!(ep.score, 100);
    assert_eq!(ep.last_ok, 0);
    assert_eq!(ep.last_fail, 0);
}

#[test]
fn report_ok_adds_exact_delta() {
    let mut ep = Endpoint::new(EndpointKind::Tunnel, String::from("100.64.0.5:4000"));
    ep.report_ok_at(7);
    assert_eq!(ep.score, 60);
    assert_eq!(ep.last_ok, 7);
    ep.report_ok_at(9);
    assert_eq!(ep.score, 70);
    assert_eq!(ep.last_ok, 9);
}

#[test]
fn report_fail_subtracts_exact_delta_floored() {
    let mut ep = Endpoint::new(EndpointKind::Tunnel, String::from("100.64.0.5:4000"));
    ep.report_fail_at(3);
    assert_eq!(ep.score, 30);
    assert_eq!(ep.last_fail, 3);
    ep.report_fail_at(4);
    assert_eq!(ep.score, 10);
    ep.report_fail_at(5);
    assert_eq!(ep.score, 0); // floored, not -10
    ep.report_fail_at(6);
    assert_eq!(ep.score, 0);
}

#[test]
fn score_stays_nonnegative_under_any_sequence() {
    let mut ep = Endpoint::new(EndpointKind::Tunnel, String::from("100.64.0.5:4000"));
    ep.report_fail_at(1);
    ep.report_fail_at(2);
    ep.report_fail_at(3);
    ep.report_ok_at(4);
    ep.report_fail_at(5);
    ep.report_fail_at(6);
    ep.report_ok_at(7);
    assert!(ep.score >= 0);
    assert_eq!(ep.score, 10); // 50,30,10,0 then +10, 0, 0, +10
}

#[test]
fn select_endpoint_ranks_by_score_with_stable_ties() {
    let mut entry = PathEntry {
        path_id: String::from("cs.ai.001"),
        node_id: 7,
        endpoints: vec![
            Endpoint::new(EndpointKind::Private, String::from("10.0.0.1:4000")),
            Endpoint::new(EndpointKind::Public, String::from("203.0.113.10:4000")),
            Endpoint::new(EndpointKind::Private, String::from("10.0.0.2:4000")),
        ],
    };
    let best_addr = {
        let best = entry.select_endpoint().expect("nonempty");
        best.addr.clone()
    };
    assert_eq!(best_addr, "203.0.113.10:4000");
    // the two Private candidates tie at 80 and keep insertion order
    assert_eq!(entry.endpoints[1].addr, "10.0.0.1:4000");
    assert_eq!(entry.endpoints[2].addr, "10.0.0.2:4000");
}

#[test]
fn select_endpoint_empty_is_absent() {
    let mut entry = PathEntry { path_id: String::from("x"), node_id: 1, endpoints: Vec::new() };
    assert!(entry.select_endpoint().is_none());
}

#[test]
fn ambient_clock_reports_are_applied() {
    let mut ep = Endpoint::new(EndpointKind::Private, String::from("10.0.0.1:4000"));
    ep.report_ok();
    assert_eq!(ep.score, 90);
    assert!(ep.last_ok > 0);
    ep.report_fail();
    assert_eq!(ep.score, 70);
    assert!(ep.last_fail > 0);
}

#[test]
fn refresh_stays_within_jitter_of_base() {
    let mut ep = Endpoint::new(EndpointKind::Public, String::from("203.0.113.10:4000"));
    ep.report_fail_at(1);
    ep.report_fail_at(2); // score 60, well away from base
    for _ in 0..5 {
        ep.refresh();
        assert!(ep.score >= 90 && ep.score <= 110);
    }
}

#[test]
fn event_driven_strategy_skips_the_periodic_pass() {
    let mut ep = Endpoint::new(EndpointKind::Tunnel, String::from("100.64.0.5:4000"));
    ep.report_ok_at(3); // score 60
    ep.periodic_adjust(ScoringStrategy::EventDriven);
    assert_eq!(ep.score, 60);
    ep.periodic_adjust(ScoringStrategy::PeriodicJitter);
    assert!(ep.score >= 40 && ep.score <= 60);
}
