use maimai_touch::serial::{HandshakeReply, SerialManager};

const EMPTY: [u8; 9] = [0x28, 0, 0, 0, 0, 0, 0, 0, 0x29];

#[test]
fn new_link_queues_the_empty_packet_and_sends_nothing() {
    let mut m = SerialManager::new();
    assert!(m.packet_to_send().is_none());
    let (packet, keys) = m.next_update().unwrap();
    assert_eq!(packet, EMPTY.to_vec());
    assert!(keys.is_empty());
    assert!(m.next_update().is_none());
}

#[test]
fn updates_come_out_in_order() {
    let mut m = SerialManager::new();
    m.next_update();
    m.change_touch(&[vec![1]], vec!["A1".to_string()]);
    m.change_touch(&[vec![0, 1]], vec!["A2".to_string()]);
    let (p1, k1) = m.next_update().unwrap();
    assert_eq!(p1, vec![0x28, 1, 0, 0, 0, 0, 0, 0, 0x29]);
    assert_eq!(k1, vec!["A1".to_string()]);
    let (p2, _) = m.next_update().unwrap();
    assert_eq!(p2, vec![0x28, 2, 0, 0, 0, 0, 0, 0, 0x29]);
    assert!(m.next_update().is_none());
}

#[test]
fn handshake_connect_settings_disconnect() {
    let mut m = SerialManager::new();
    m.next_update();
    m.change_touch(&[vec![1]], vec![]);
    m.next_update();

    match m.handle_handshake(&[0x28, 1, 2, b'r', 4, 0x29]) {
        HandshakeReply::Settings(echo) => assert_eq!(echo, vec![0x28, 1, 2, b'r', 4, 0x29]),
        _ => panic!("expected a settings echo"),
    }
    match m.handle_handshake(&[0x28, 9, 8, b'k', 6, 0x29]) {
        HandshakeReply::Settings(echo) => assert_eq!(echo, vec![0x28, 9, 8, b'k', 6, 0x29]),
        _ => panic!("expected a settings echo"),
    }
    assert!(m.packet_to_send().is_none());

    assert!(matches!(m.handle_handshake(&[0x28, 0, 0, b'A', 0, 0x29]), HandshakeReply::Connected));
    assert_eq!(m.packet_to_send(), Some(vec![0x28, 1, 0, 0, 0, 0, 0, 0, 0x29]));

    assert!(matches!(m.handle_handshake(&[0x28, 0, 0, b'x', 0, 0x29]), HandshakeReply::Ignored));
    assert!(m.packet_to_send().is_some());

    assert!(matches!(m.handle_handshake(&[0x28, 0, 0, b'L', 0, 0x29]), HandshakeReply::Disconnected));
    assert!(m.packet_to_send().is_none());
    m.set_started(true);
    assert!(m.packet_to_send().is_some());
    assert!(matches!(m.handle_handshake(&[0x28, 0, 0, b'E', 0, 0x29]), HandshakeReply::Disconnected));
    assert!(m.packet_to_send().is_none());
}

#[test]
fn set_started_controls_the_writer() {
    let mut m = SerialManager::new();
    m.set_started(true);
    assert_eq!(m.packet_to_send(), Some(EMPTY.to_vec()));
    m.set_started(false);
    assert_eq!(m.packet_to_send(), None);
}
