use mehsh_check::analysis::{
    get_command_with_variables, report_directory, report_file_path, AnalysisDecision,
    AnalyzerEventSubscriberAnalysis, ExecuteAnalysisCommandState,
};
use mehsh_check::analyzer_event::UdpEchoAnalyzerEventServer;
use mehsh_check::config::{ConfigAnalysis, ConfigServer, RawConfigServer};
use mehsh_check::maintenance_mode::MaintenanceMode;

const SEC: u64 = 1_000_000;

fn server(name: &str, ip: &str, extra1: Option<&str>) -> ConfigServer {
    ConfigServer::from_raw_config_server(RawConfigServer {
        identifier: name.to_string(),
        datacenter: None,
        ip: ip.to_string(),
        groups: vec![],
        serverdensity_udp_agent: None,
        extra1: extra1.map(|e| e.to_string()),
        extra2: None,
        extra3: None,
    })
}

fn analysis(min_loss: u32, command: &str) -> ConfigAnalysis {
    ConfigAnalysis {
        name: "losscheck".to_string(),
        from: server("self", "10.0.0.1", Some("eth0")),
        to: server("peer1", "10.0.0.2", None),
        min_loss,
        command: command.to_string(),
    }
}

fn aggregate(from: &str, to: &str, req: u64, resp: u64, t: u64) -> UdpEchoAnalyzerEventServer {
    UdpEchoAnalyzerEventServer {
        time_micros: t,
        server_from: from.to_string(),
        server_to: to.to_string(),
        server_to_ip: "10.0.0.2".to_string(),
        req_count: req,
        resp_count: resp,
        max_latency: None,
        min_latency: None,
    }
}

#[test]
fn test_threshold_trigger() {
    // Warm-up starts at zero; by t = 30 s it has passed.
    let mut policy = AnalyzerEventSubscriberAnalysis::new(analysis(10, "echo hi"), 0);
    let ev = aggregate("self", "peer1", 12, 0, 30 * SEC);
    let d = policy.on_udp_echo_analyzer_event_server(&ev, 30 * SEC, false);
    assert_eq!(d, AnalysisDecision::Start);
}

#[test]
fn test_loss_under_threshold_ignored() {
    let mut policy = AnalyzerEventSubscriberAnalysis::new(analysis(10, "echo hi"), 0);
    let ev = aggregate("self", "peer1", 12, 3, 30 * SEC);
    let d = policy.on_udp_echo_analyzer_event_server(&ev, 30 * SEC, false);
    assert_eq!(d, AnalysisDecision::Ignore);
}

#[test]
fn test_other_route_ignored() {
    let mut policy = AnalyzerEventSubscriberAnalysis::new(analysis(10, "echo hi"), 0);
    let ev = aggregate("self", "peer9", 50, 0, 30 * SEC);
    assert_eq!(
        policy.on_udp_echo_analyzer_event_server(&ev, 30 * SEC, false),
        AnalysisDecision::Ignore
    );
    let ev = aggregate("other", "peer1", 50, 0, 30 * SEC);
    assert_eq!(
        policy.on_udp_echo_analyzer_event_server(&ev, 30 * SEC, false),
        AnalysisDecision::Ignore
    );
}

#[test]
fn test_warmup_skips() {
    let mut policy = AnalyzerEventSubscriberAnalysis::new(analysis(10, "echo hi"), 0);
    let ev = aggregate("self", "peer1", 12, 0, 5 * SEC);
    let d = policy.on_udp_echo_analyzer_event_server(&ev, 5 * SEC, false);
    assert_eq!(d, AnalysisDecision::SkipCooldown);
}

#[test]
fn test_single_flight_cooldown() {
    // Two threshold-crossing aggregates six seconds apart: the second is
    // swallowed by the cooldown the first one set.
    let mut policy = AnalyzerEventSubscriberAnalysis::new(analysis(10, "echo hi"), 0);
    let t1 = 30 * SEC;
    let ev1 = aggregate("self", "peer1", 12, 0, t1);
    assert_eq!(
        policy.on_udp_echo_analyzer_event_server(&ev1, t1, false),
        AnalysisDecision::Start
    );
    let t2 = t1 + 6 * SEC;
    let ev2 = aggregate("self", "peer1", 13, 0, t2);
    assert_eq!(
        policy.on_udp_echo_analyzer_event_server(&ev2, t2, false),
        AnalysisDecision::SkipCooldown
    );
    // Only after the full 120 s window may the next one start.
    let t3 = t1 + 120 * SEC;
    let ev3 = aggregate("self", "peer1", 14, 0, t3);
    assert_eq!(
        policy.on_udp_echo_analyzer_event_server(&ev3, t3, false),
        AnalysisDecision::Start
    );
}

#[test]
fn test_maintenance_suppresses_without_advancing_cooldown() {
    let mut policy = AnalyzerEventSubscriberAnalysis::new(analysis(10, "echo hi"), 0);
    let t = 30 * SEC;
    let ev = aggregate("self", "peer1", 12, 0, t);
    assert_eq!(
        policy.on_udp_echo_analyzer_event_server(&ev, t, true),
        AnalysisDecision::SkipMaintenance
    );
    // The cooldown stayed where it was, so once maintenance ends a
    // diagnostic may begin at once.
    assert_eq!(
        policy.on_udp_echo_analyzer_event_server(&ev, t, false),
        AnalysisDecision::Start
    );
}

#[test]
fn test_runner_single_flight() {
    let runner = ExecuteAnalysisCommandState::new();
    let (runner, spawned) = runner.on_notify(100);
    assert!(spawned);
    // A second request during the run spawns nothing.
    let (runner, spawned) = runner.on_notify(200);
    assert!(!spawned);

    let runner = runner.on_cli_output(b"hello ");
    let runner = runner.on_cli_output(b"world");
    let (runner, report) = runner.on_finish();
    let (started, content) = report.unwrap();
    assert_eq!(started, 100);
    assert_eq!(content, b"hello world");

    // Idle again: finishing yields nothing, notifying spawns.
    let (runner, report) = runner.on_finish();
    assert!(report.is_none());
    let (_runner, spawned) = runner.on_notify(300);
    assert!(spawned);
}

#[test]
fn test_command_with_variables() {
    let cfg = analysis(
        10,
        "ping {{server.to.ip}} from {{server.from.ip}} dev {{server.from.extra1}} x{{server.to.extra1}}y",
    );
    assert_eq!(
        get_command_with_variables(&cfg),
        "ping 10.0.0.2 from 10.0.0.1 dev eth0 xy"
    );
}

#[test]
fn test_report_paths() {
    let cfg = analysis(10, "echo hi");
    assert_eq!(report_directory(&cfg), "/tmp/mehsh/losscheck/peer1");
    assert_eq!(
        report_file_path(&cfg, 0),
        "/tmp/mehsh/losscheck/peer1/1970_01_01_00_00_00.txt"
    );
    // 2021-05-03 07:06:40 UTC.
    assert_eq!(
        report_file_path(&cfg, 1620025600),
        "/tmp/mehsh/losscheck/peer1/2021_05_03_07_06_40.txt"
    );
}

#[test]
fn test_maintenance_gate_interpretation() {
    assert!(MaintenanceMode::interpret_sentinel(Some(true)));
    assert!(!MaintenanceMode::interpret_sentinel(Some(false)));
    assert!(!MaintenanceMode::interpret_sentinel(None));
}
