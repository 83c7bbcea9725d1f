use mehsh_check::codec::{Packet, PacketError, PacketType};
use mehsh_check::server::handle_datagram;
use mehsh_check::client::{client_parse_datagram, client_send_step};

#[test]
fn test_encode_exact_bytes() {
    let bytes = Packet::new_req(1).to_bytes();
    assert_eq!(
        bytes,
        vec![19, 114, 13, 11, 0, 0, 0, 1, 0, 0, 0, 0, 0, 0, 0, 1, 0, 1]
    );
    let bytes = Packet::new_resp(258).to_bytes();
    assert_eq!(
        bytes,
        vec![19, 114, 13, 11, 0, 0, 0, 1, 0, 0, 0, 0, 0, 0, 1, 2, 0, 2]
    );
}

#[test]
fn test_decode_encode_roundtrip() {
    for id in [0u64, 1, 7, 0xDEAD_BEEF_0102_0304, u64::MAX] {
        let p = Packet::new_req(id);
        let decoded = Packet::new_from_raw(&p.to_bytes()).unwrap();
        assert_eq!(decoded.get_version(), 1);
        assert_eq!(decoded.get_id(), id);
        assert_eq!(*decoded.get_type(), PacketType::Req);

        let p = Packet::new_resp(id);
        let decoded = Packet::new_from_raw(&p.to_bytes()).unwrap();
        assert_eq!(decoded.get_id(), id);
        assert_eq!(*decoded.get_type(), PacketType::Resp);
    }
}

#[test]
fn test_decode_wrong_magic() {
    let mut bytes = Packet::new_req(5).to_bytes();
    bytes[0] = 0xFF;
    assert!(matches!(
        Packet::new_from_raw(&bytes),
        Err(PacketError::InvalidMagic)
    ));
}

#[test]
fn test_decode_too_short() {
    let bytes = Packet::new_req(5).to_bytes();
    assert!(matches!(
        Packet::new_from_raw(&bytes[0..17]),
        Err(PacketError::InvalidSize)
    ));
    assert!(matches!(
        Packet::new_from_raw(&[]),
        Err(PacketError::InvalidSize)
    ));
}

#[test]
fn test_decode_unknown_type() {
    let mut bytes = Packet::new_req(5).to_bytes();
    bytes[17] = 3;
    assert!(matches!(
        Packet::new_from_raw(&bytes),
        Err(PacketError::UnknownType)
    ));
}

#[test]
fn test_decode_ignores_trailing_bytes() {
    let mut bytes = Packet::new_req(9).to_bytes();
    bytes.extend_from_slice(&[1, 2, 3, 4, 5]);
    let decoded = Packet::new_from_raw(&bytes).unwrap();
    assert_eq!(decoded.get_id(), 9);
    assert_eq!(*decoded.get_type(), PacketType::Req);
}

#[test]
fn test_server_reflects_id() {
    let request = Packet::new_req(42).to_bytes();
    let reply = handle_datagram(&request).unwrap();
    let decoded = Packet::new_from_raw(&reply).unwrap();
    assert_eq!(decoded.get_id(), 42);
    assert_eq!(*decoded.get_type(), PacketType::Resp);
}

#[test]
fn test_server_drops_garbage() {
    assert!(handle_datagram(&[0u8; 18]).is_none());
    assert!(handle_datagram(&[]).is_none());
}

#[test]
fn test_client_send_step() {
    let ident = String::from("peer1");
    let (next, event, bytes) = client_send_step(0, &ident);
    assert_eq!(next, 1);
    assert_eq!(event.server_identifier, "peer1");
    assert_eq!(event.packet.get_id(), 1);
    assert_eq!(*event.packet.get_type(), PacketType::Req);
    let decoded = Packet::new_from_raw(&bytes).unwrap();
    assert_eq!(decoded.get_id(), 1);
}

#[test]
fn test_client_parse_datagram() {
    let ident = String::from("peer1");
    let bytes = Packet::new_resp(7).to_bytes();
    let event = client_parse_datagram(&bytes, &ident).unwrap();
    assert_eq!(event.server_identifier, "peer1");
    assert_eq!(event.packet.get_id(), 7);
    assert_eq!(*event.packet.get_type(), PacketType::Resp);
    assert!(client_parse_datagram(&[1, 2, 3], &ident).is_none());
}
