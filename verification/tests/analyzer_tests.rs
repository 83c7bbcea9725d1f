use mehsh_check::analyzer::{AnalyzerEvent, AnalyzerStats, AnalyzerStatsEntry};
use mehsh_check::codec::Packet;
use mehsh_check::config::{Config, RawConfig, RawConfigGroup, RawConfigServer};

const SEC: u64 = 1_000_000;

fn server(name: &str, ip: &str, datacenter: Option<&str>) -> RawConfigServer {
    RawConfigServer {
        identifier: name.to_string(),
        datacenter: datacenter.map(|d| d.to_string()),
        ip: ip.to_string(),
        groups: vec![],
        serverdensity_udp_agent: None,
        extra1: None,
        extra2: None,
        extra3: None,
    }
}

fn test_config() -> Config {
    let raw = RawConfig {
        server: vec![
            server("self", "10.0.0.1", Some("fra.dc1")),
            server("peer1", "10.0.0.2", Some("fra.dc1")),
            server("peer2", "10.0.0.3", Some("fra.dc2")),
        ],
        group: Vec::<RawConfigGroup>::new(),
        check: None,
        analysis: None,
    };
    Config::new_from_raw_config("self".to_string(), raw).unwrap()
}

fn req(peer: &str, id: u64) -> AnalyzerEvent {
    AnalyzerEvent::new(peer.to_string(), Packet::new_req(id))
}

fn resp(peer: &str, id: u64) -> AnalyzerEvent {
    AnalyzerEvent::new(peer.to_string(), Packet::new_resp(id))
}

#[test]
fn test_happy_round_trip() {
    let mut stats = AnalyzerStats::new(test_config());
    stats.add_event(req("peer1", 1), 0);
    stats.add_event(resp("peer1", 1), 3000);

    let batch = stats.slice(5 * SEC);
    assert_eq!(batch.len(), 1);

    let (servers, _dcs) = stats.aggregate(batch, 5 * SEC);
    assert_eq!(servers.len(), 1);
    let agg = &servers[0];
    assert_eq!(agg.server_from, "self");
    assert_eq!(agg.server_to, "peer1");
    assert_eq!(agg.server_to_ip, "10.0.0.2");
    assert_eq!(agg.req_count, 1);
    assert_eq!(agg.resp_count, 1);
    assert_eq!(agg.min_latency, Some(3000));
    assert_eq!(agg.max_latency, Some(3000));
}

#[test]
fn test_pure_loss() {
    let mut stats = AnalyzerStats::new(test_config());
    // 200 requests over five seconds, none answered.
    for i in 0..200u64 {
        stats.add_event(req("peer1", i + 1), i * 25_000);
    }
    let now = 5 * SEC + 1 * SEC;
    let batch = stats.slice(now);
    assert_eq!(batch.len(), 200);

    let (servers, _dcs) = stats.aggregate(batch, now);
    assert_eq!(servers.len(), 1);
    let agg = &servers[0];
    assert_eq!(agg.req_count, 200);
    assert_eq!(agg.resp_count, 0);
    assert_eq!(agg.min_latency, None);
    assert_eq!(agg.max_latency, None);
    assert_eq!(agg.req_count - agg.resp_count, 200);
}

#[test]
fn test_late_response_still_counts() {
    let mut stats = AnalyzerStats::new(test_config());
    stats.add_event(req("peer1", 1), 0);
    stats.add_event(resp("peer1", 1), 800_000);

    let batch = stats.slice(5 * SEC);
    assert_eq!(batch.len(), 1);
    let (servers, _dcs) = stats.aggregate(batch, 5 * SEC);
    assert_eq!(servers[0].resp_count, 1);
    assert_eq!(servers[0].min_latency, Some(800_000));
}

#[test]
fn test_young_entry_carried_to_next_tick() {
    let mut stats = AnalyzerStats::new(test_config());
    stats.add_event(req("peer1", 1), 4_500_000);

    // At the tick the entry is half a second old: it stays, unchanged.
    let batch = stats.slice(5 * SEC);
    assert!(batch.is_empty());

    // The answer may still arrive and bind to the carried entry.
    stats.add_event(resp("peer1", 1), 5_100_000);

    // One tick later it has aged out and moves to the batch.
    let batch = stats.slice(10 * SEC);
    assert_eq!(batch.len(), 1);
    assert_eq!(batch[0].server_identifier, "peer1");
    assert_eq!(batch[0].req_time, 4_500_000);
    assert_eq!(batch[0].resp_time, Some(5_100_000));
    assert_eq!(batch[0].calculate_latency(), Some(600_000));
}

#[test]
fn test_duplicate_request_and_unmatched_response_dropped() {
    let mut stats = AnalyzerStats::new(test_config());
    stats.add_event(req("peer1", 1), 0);
    stats.add_event(req("peer1", 1), 10);
    stats.add_event(resp("peer1", 99), 20);

    let batch = stats.slice(5 * SEC);
    assert_eq!(batch.len(), 1);
    assert_eq!(batch[0].req_time, 0);
    assert_eq!(batch[0].resp_time, None);
}

#[test]
fn test_response_overwrites_response_time() {
    let mut stats = AnalyzerStats::new(test_config());
    stats.add_event(req("peer1", 1), 0);
    stats.add_event(resp("peer1", 1), 1000);
    stats.add_event(resp("peer1", 1), 2000);

    let batch = stats.slice(5 * SEC);
    assert_eq!(batch[0].resp_time, Some(2000));
}

#[test]
fn test_clock_backwards_discards_latency_only() {
    let entry = AnalyzerStatsEntry {
        server_identifier: "peer1".to_string(),
        probe_id: 1,
        req_time: 5000,
        resp_time: Some(4000),
    };
    assert_eq!(entry.calculate_latency(), None);
}

#[test]
fn test_resp_never_exceeds_req() {
    let mut stats = AnalyzerStats::new(test_config());
    for i in 0..10u64 {
        stats.add_event(req("peer1", i), 0);
        if i % 2 == 0 {
            stats.add_event(resp("peer1", i), 100);
        }
    }
    // Responses without requests are dropped, so they never count.
    stats.add_event(resp("peer1", 77), 100);
    let batch = stats.slice(5 * SEC);
    let (servers, _dcs) = stats.aggregate(batch, 5 * SEC);
    for agg in &servers {
        assert!(agg.resp_count <= agg.req_count);
        match (agg.min_latency, agg.max_latency) {
            (Some(lo), Some(hi)) => assert!(lo <= hi),
            (None, None) => {}
            _ => panic!("one latency bound without the other"),
        }
    }
}

#[test]
fn test_datacenter_rollup() {
    let mut stats = AnalyzerStats::new(test_config());
    // peer1 sits in fra.dc1, peer2 in fra.dc2: "fra" sees both.
    stats.add_event(req("peer1", 1), 0);
    stats.add_event(resp("peer1", 1), 2000);
    stats.add_event(req("peer1", 2), 0);
    stats.add_event(req("peer2", 1), 0);
    stats.add_event(resp("peer2", 1), 6000);

    let batch = stats.slice(5 * SEC);
    let (servers, dcs) = stats.aggregate(batch, 5 * SEC);
    assert_eq!(servers.len(), 2);

    let fra = dcs.iter().find(|d| d.datacenter_to == "fra").unwrap();
    assert_eq!(fra.req_count, 3);
    assert_eq!(fra.resp_count, 2);
    assert_eq!(fra.min_latency, Some(2000));
    assert_eq!(fra.max_latency, Some(6000));
    assert_eq!(fra.datacenter_from, "fra.dc1");
    assert_eq!(fra.server_from, "self");

    let dc1 = dcs.iter().find(|d| d.datacenter_to == "fra.dc1").unwrap();
    assert_eq!(dc1.req_count, 2);
    assert_eq!(dc1.resp_count, 1);

    let dc2 = dcs.iter().find(|d| d.datacenter_to == "fra.dc2").unwrap();
    assert_eq!(dc2.req_count, 1);
    assert_eq!(dc2.resp_count, 1);
    assert_eq!(dc2.min_latency, Some(6000));
}

#[test]
fn test_empty_tick_emits_nothing() {
    let mut stats = AnalyzerStats::new(test_config());
    let batch = stats.slice(5 * SEC);
    assert!(batch.is_empty());
    let (servers, dcs) = stats.aggregate(batch, 5 * SEC);
    assert!(servers.is_empty());
    assert!(dcs.is_empty());
}
