use mehsh_check::config::{
    Config, ConfigError, ConfigServer, RawConfig, RawConfigAnalysis, RawConfigCheck,
    RawConfigGroup, RawConfigServer,
};

fn server(name: &str, ip: &str, datacenter: Option<&str>, groups: &[&str]) -> RawConfigServer {
    RawConfigServer {
        identifier: name.to_string(),
        datacenter: datacenter.map(|d| d.to_string()),
        ip: ip.to_string(),
        groups: groups.iter().map(|g| g.to_string()).collect(),
        serverdensity_udp_agent: None,
        extra1: None,
        extra2: None,
        extra3: None,
    }
}

fn group(name: &str) -> RawConfigGroup {
    RawConfigGroup { name: name.to_string() }
}

fn basic_raw() -> RawConfig {
    RawConfig {
        server: vec![
            server("server1", "127.0.0.1", Some("fra.dc11.foo.xyz"), &["g1"]),
            server("server2", "127.0.0.2", None, &["g1", "g2"]),
        ],
        group: vec![group("g1"), group("g2")],
        check: None,
        analysis: None,
    }
}

fn load_config(raw: RawConfig) -> Config {
    Config::new_from_raw_config("server1".to_string(), raw).expect("could not load config")
}

#[test]
fn test_basic_servers() {
    let c = load_config(basic_raw());

    assert_eq!(vec!["server1", "server2"], {
        let mut v = c
            .resolve_idents("g1")
            .unwrap()
            .iter()
            .map(|x| x.identifier.clone())
            .collect::<Vec<_>>();
        v.sort();
        v
    });

    assert_eq!(
        vec!["server2"],
        c.resolve_idents("g2")
            .unwrap()
            .iter()
            .map(|x| x.identifier.clone())
            .collect::<Vec<_>>()
    );

    assert_eq!(
        vec!["fra", "fra.dc11", "fra.dc11.foo", "fra.dc11.foo.xyz"],
        c.get_server_by_identifier(&"server1".to_string())
            .expect("server must exists")
            .datacenter_as_entries
    );
}

#[test]
fn test_from_raw_config_server_defaults() {
    let s = ConfigServer::from_raw_config_server(server("a", "1.1.1.1", None, &[]));
    assert_eq!(s.datacenter_as_entries, vec!["no-datacenter"]);
    assert!(!s.serverdensity_udp_agent);
}

#[test]
fn test_duplicate_server_rejected() {
    let mut raw = basic_raw();
    raw.server.push(server("server1", "127.0.0.3", None, &[]));
    let r = Config::new_from_raw_config("server1".to_string(), raw);
    assert!(matches!(r, Err(ConfigError::DuplicateServer)));
}

#[test]
fn test_duplicate_group_rejected() {
    let mut raw = basic_raw();
    raw.group.push(group("g1"));
    let r = Config::new_from_raw_config("server1".to_string(), raw);
    assert!(matches!(r, Err(ConfigError::DuplicateGroup)));
}

#[test]
fn test_ambiguous_identifier_rejected() {
    let mut raw = basic_raw();
    raw.group.push(group("server2"));
    let r = Config::new_from_raw_config("server1".to_string(), raw);
    assert!(matches!(r, Err(ConfigError::AmbiguousIdentifier)));
}

#[test]
fn test_self_not_found_rejected() {
    let r = Config::new_from_raw_config("nobody".to_string(), basic_raw());
    assert!(matches!(r, Err(ConfigError::SelfNotFound)));
}

#[test]
fn test_invalid_ip_rejected_on_resolution() {
    let mut raw = basic_raw();
    raw.server.push(server("server3", "not-an-ip", None, &[]));
    let c = Config::new_from_raw_config("server1".to_string(), raw).unwrap();
    assert!(matches!(
        c.resolve_idents("server3"),
        Err(ConfigError::InvalidIp)
    ));
}

#[test]
fn test_resolve_unknown_is_empty() {
    let c = load_config(basic_raw());
    assert!(c.resolve_idents("nothing").unwrap().is_empty());
}

#[test]
fn test_is_server_or_is_in_group() {
    let c = load_config(basic_raw());
    assert!(c.is_server_or_is_in_group("server1"));
    assert!(c.is_server_or_is_in_group("g1"));
    assert!(!c.is_server_or_is_in_group("g2"));
    assert!(!c.is_server_or_is_in_group("server2"));
}

#[test]
fn test_get_server_self() {
    let c = load_config(basic_raw());
    assert_eq!(c.get_server_self().identifier, "server1");
}

#[test]
fn test_all_checks_resolves_and_dedups() {
    let mut raw = basic_raw();
    raw.check = Some(vec![
        RawConfigCheck {
            from: "g1".to_string(),
            to: "g1".to_string(),
            check: "udp_ping".to_string(),
            http_url: None,
        },
        RawConfigCheck {
            from: "server1".to_string(),
            to: "server2".to_string(),
            check: "udp_ping".to_string(),
            http_url: None,
        },
    ]);
    let c = load_config(raw);
    let checks = c.all_checks().unwrap();
    // g1 x g1 gives four pairs; the later server1->server2 repeats one.
    assert_eq!(checks.len(), 4);
    let mut pairs = checks
        .iter()
        .map(|k| format!("{}>{}", k.from.identifier, k.to.identifier))
        .collect::<Vec<_>>();
    pairs.sort();
    assert_eq!(
        pairs,
        vec![
            "server1>server1",
            "server1>server2",
            "server2>server1",
            "server2>server2"
        ]
    );
}

#[test]
fn test_all_analyisis_resolves_and_dedups() {
    let mut raw = basic_raw();
    raw.analysis = Some(vec![
        RawConfigAnalysis {
            name: "mtr".to_string(),
            from: "server1".to_string(),
            to: "g2".to_string(),
            min_loss: 10,
            command: "mtr {{server.to.ip}}".to_string(),
        },
        RawConfigAnalysis {
            name: "mtr".to_string(),
            from: "server1".to_string(),
            to: "server2".to_string(),
            min_loss: 10,
            command: "mtr {{server.to.ip}}".to_string(),
        },
    ]);
    let c = load_config(raw);
    let analyses = c.all_analyisis().unwrap();
    assert_eq!(analyses.len(), 1);
    assert_eq!(analyses[0].from.identifier, "server1");
    assert_eq!(analyses[0].to.identifier, "server2");
    assert_eq!(analyses[0].min_loss, 10);
}
