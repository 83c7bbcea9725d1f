use mehsh_check::allow_addr::{AllowAddr, AllowAddrPort, AllowIp, Ipv4Addr};

#[test]
fn test_allow_addr() {
    assert_eq!(
        AllowAddr::V4(Ipv4Addr::new(127, 0, 0, 1), AllowAddrPort::AnyPort),
        AllowAddr::new_from_str("v4:127.0.0.1").unwrap()
    );

    assert_eq!(
        AllowAddr::V4(Ipv4Addr::new(127, 0, 0, 1), AllowAddrPort::Port(2121)),
        AllowAddr::new_from_str("v4:127.0.0.1:2121").unwrap()
    );

    assert_eq!(
        AllowAddr::V4(Ipv4Addr::new(127, 0, 0, 1), AllowAddrPort::Range(20, 25)),
        AllowAddr::new_from_str("v4:127.0.0.1:20-25").unwrap()
    );

    assert_eq!(
        AllowAddr::V4(Ipv4Addr::new(127, 0, 0, 1), AllowAddrPort::AnyPort),
        AllowAddr::new_from_str("v4:127.0.0.1:*").unwrap()
    );
}

#[test]
fn test_allow_addr_port() {
    assert_eq!(
        AllowAddrPort::Port(80),
        AllowAddrPort::new_from_str("80").unwrap()
    );
    assert_eq!(
        AllowAddrPort::Port(8080),
        AllowAddrPort::new_from_str("8080").unwrap()
    );
    assert_eq!(
        AllowAddrPort::Range(80, 88),
        AllowAddrPort::new_from_str("80-88").unwrap()
    );
    assert_eq!(
        AllowAddrPort::AnyPort,
        AllowAddrPort::new_from_str("*").unwrap()
    );
}

#[test]
fn allow_addr_test_allow_addr_port() {
    assert_eq!(
        AllowAddrPort::Port(80),
        AllowAddrPort::new_from_str("80").unwrap()
    );
    assert_eq!(
        AllowAddrPort::Port(8080),
        AllowAddrPort::new_from_str("8080").unwrap()
    );
    assert_eq!(
        AllowAddrPort::Range(80, 88),
        AllowAddrPort::new_from_str("80-88").unwrap()
    );
    assert_eq!(
        AllowAddrPort::AnyPort,
        AllowAddrPort::new_from_str("*").unwrap()
    );
}

#[test]
fn test_allow_addr_port_errors() {
    assert!(AllowAddrPort::new_from_str("80-88-90").is_err());
    assert!(AllowAddrPort::new_from_str("eighty").is_err());
    assert!(AllowAddrPort::new_from_str("90-80").is_err());
    assert!(AllowAddrPort::new_from_str("80-").is_err());
}

#[test]
fn test_allow_addr_rejects_other_schemes() {
    assert!(AllowAddr::new_from_str("127.0.0.1").is_err());
    assert!(AllowAddr::new_from_str("v6:::1").is_err());
}

#[test]
fn test_ipv4_parse() {
    assert_eq!(Ipv4Addr::parse("1.2.3.4"), Some(Ipv4Addr::new(1, 2, 3, 4)));
    assert_eq!(
        Ipv4Addr::parse("255.255.255.255"),
        Some(Ipv4Addr::new(255, 255, 255, 255))
    );
    assert_eq!(Ipv4Addr::parse("0.0.0.0"), Some(Ipv4Addr::new(0, 0, 0, 0)));
    assert_eq!(Ipv4Addr::parse("256.0.0.1"), None);
    assert_eq!(Ipv4Addr::parse("01.2.3.4"), None);
    assert_eq!(Ipv4Addr::parse("1.2.3"), None);
    assert_eq!(Ipv4Addr::parse("1.2.3.4.5"), None);
    assert_eq!(Ipv4Addr::parse("a.b.c.d"), None);
    assert_eq!(Ipv4Addr::parse(""), None);
}

#[test]
fn test_ipv4_text_roundtrip() {
    let ip = Ipv4Addr::new(10, 0, 200, 7);
    assert_eq!(ip.to_text(), "10.0.200.7");
    assert_eq!(AllowIp::V4(ip).to_string(), "10.0.200.7");
}
