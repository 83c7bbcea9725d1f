use mehsh_check::analyzer_event::UdpEchoAnalyzerEventServer;
use mehsh_check::bus::{bus_channel, bus_send, bus_subscribe, bus_try_recv, BroadcastEvent, BusRead};
use mehsh_check::stdout_subscriber::{get_mode_info, render_server_event_line};
use mehsh_check::metric::metric_counters;

fn sample_event(req: u64, resp: u64) -> UdpEchoAnalyzerEventServer {
    UdpEchoAnalyzerEventServer {
        time_micros: 0,
        server_from: "self".to_string(),
        server_to: "peer1".to_string(),
        server_to_ip: "10.0.0.2".to_string(),
        req_count: req,
        resp_count: resp,
        max_latency: Some(3000),
        min_latency: Some(3000),
    }
}

#[test]
fn test_bus_delivers_to_every_subscriber() {
    let (tx, mut rx1) = bus_channel(16);
    let mut rx2 = bus_subscribe(&tx);
    assert!(bus_send(&tx, BroadcastEvent::UdpEchoAnalyzerEventServer(sample_event(1, 1))));
    for rx in [&mut rx1, &mut rx2] {
        match bus_try_recv(rx) {
            BusRead::Event(BroadcastEvent::UdpEchoAnalyzerEventServer(ev)) => {
                assert_eq!(ev.server_to, "peer1");
            }
            other => panic!("expected the event, got {:?}", other),
        }
        assert!(matches!(bus_try_recv(rx), BusRead::Empty));
    }
}

#[test]
fn test_bus_lag_reports_and_continues() {
    // A subscriber that never reads while ten events pass a four-slot
    // queue is told how far it lagged, then reads on undisturbed.
    let (tx, mut slow) = bus_channel(4);
    for i in 0..10u64 {
        assert!(bus_send(
            &tx,
            BroadcastEvent::UdpEchoAnalyzerEventServer(sample_event(i, 0))
        ));
    }
    match bus_try_recv(&mut slow) {
        BusRead::Lagged(n) => assert_eq!(n, 6),
        other => panic!("expected a lag notice, got {:?}", other),
    }
    let mut seen = 0;
    while let BusRead::Event(_) = bus_try_recv(&mut slow) {
        seen += 1;
    }
    assert_eq!(seen, 4);
}

#[test]
fn test_bus_without_subscribers_drops() {
    let (tx, rx) = bus_channel(4);
    drop(rx);
    assert!(!bus_send(
        &tx,
        BroadcastEvent::UdpEchoAnalyzerEventServer(sample_event(1, 0))
    ));
}

#[test]
fn test_render_server_event_line() {
    let line = render_server_event_line(&sample_event(2, 1), &get_mode_info(false));
    assert_eq!(
        line,
        "1970-01-01 00:00:00 server: self -> peer1, ip: 10.0.0.2, req: 2, resp: 1, \
         max_lat: Some(3000), min_lat: Some(3000), mode: normal, loss: 1, withloss"
    );
    let line = render_server_event_line(&sample_event(2, 2), &get_mode_info(true));
    assert_eq!(
        line,
        "1970-01-01 00:00:00 server: self -> peer1, ip: 10.0.0.2, req: 2, resp: 2, \
         max_lat: Some(3000), min_lat: Some(3000), mode: MAINTENANCE, loss: 0, withoutloss"
    );
}

#[test]
fn test_metric_counters() {
    let counters = metric_counters(&sample_event(12, 4));
    assert_eq!(counters.len(), 3);
    assert_eq!(counters[0].name, "mehsh.loss");
    assert_eq!(counters[1].name, "mehsh.sendloss.self");
    assert_eq!(counters[2].name, "mehsh.recvloss.peer1");
    for c in &counters {
        assert_eq!(c.value, 8);
    }
}
