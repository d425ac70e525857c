use stream_sniffer::decode::{decode_frame, TcpSegment};
use stream_sniffer::domain::PacketDirection;
use stream_sniffer::handler::time_bounds;
use stream_sniffer::ports::{classify, PortPair, PortRegistry};
use stream_sniffer::sniffer::{Conversation, Sniffer};

fn segment(src: u16, dst: u16, flags: u8, payload: &[u8]) -> TcpSegment {
    TcpSegment {
        source_port: src,
        destination_port: dst,
        flags,
        payload: payload.to_vec(),
    }
}

fn watching(ports: &[u16]) -> PortRegistry {
    let mut r = PortRegistry::new();
    for p in ports {
        r.register(*p);
    }
    r
}

fn fragments(c: &Conversation) -> Vec<(Vec<u8>, PacketDirection, bool, i64)> {
    c.packets
        .iter()
        .map(|f| (f.payload.clone(), f.packet_direction, f.completed, f.at))
        .collect()
}

fn tcp_frame(src: u16, dst: u16, flags: u8, payload: &[u8]) -> Vec<u8> {
    let mut f = vec![0u8; 12];
    f.extend_from_slice(&0x0800u16.to_be_bytes());
    let total = (40 + payload.len()) as u16;
    let mut ip = vec![0u8; 20];
    ip[0] = 0x45;
    ip[2..4].copy_from_slice(&total.to_be_bytes());
    ip[9] = 6;
    f.extend_from_slice(&ip);
    let mut t = vec![0u8; 20];
    t[0..2].copy_from_slice(&src.to_be_bytes());
    t[2..4].copy_from_slice(&dst.to_be_bytes());
    t[12] = 5 << 4;
    t[13] = flags;
    f.extend_from_slice(&t);
    f.extend_from_slice(payload);
    f
}

#[test]
fn inbound_segment_is_normalised() {
    let ports = watching(&[8080]);
    assert_eq!(
        classify(&ports, 40000, 8080),
        Some((PortPair { src: 40000, dst: 8080 }, PacketDirection::IN))
    );
}

#[test]
fn outbound_segment_is_normalised() {
    let ports = watching(&[8080]);
    assert_eq!(
        classify(&ports, 8080, 40000),
        Some((PortPair { src: 40000, dst: 8080 }, PacketDirection::OUT))
    );
}

#[test]
fn unwatched_segment_is_not_classified() {
    let ports = watching(&[8080]);
    assert_eq!(classify(&ports, 40000, 9090), None);
}

#[test]
fn watched_destination_wins_when_both_ports_are_watched() {
    let ports = watching(&[8080, 9090]);
    assert_eq!(
        classify(&ports, 9090, 8080),
        Some((PortPair { src: 9090, dst: 8080 }, PacketDirection::IN))
    );
}

#[test]
fn both_directions_share_one_conversation_in_arrival_order() {
    let ports = watching(&[8080]);
    let mut s = Sniffer::new("eth0", 5000);
    s.record_segment(&ports, &segment(40000, 8080, 0x18, b"one"), 10);
    s.record_segment(&ports, &segment(8080, 40000, 0x18, b"two"), 11);
    s.record_segment(&ports, &segment(40000, 8080, 0x18, b"three"), 12);
    s.record_segment(&ports, &segment(8080, 40000, 0x18, b"four"), 12);
    s.record_segment(&ports, &segment(40000, 8080, 0x10, b""), 13);
    let c = s.conversation(PortPair { src: 40000, dst: 8080 }).unwrap();
    assert_eq!(
        fragments(c),
        vec![
            (b"one".to_vec(), PacketDirection::IN, false, 10),
            (b"two".to_vec(), PacketDirection::OUT, false, 11),
            (b"three".to_vec(), PacketDirection::IN, false, 12),
            (b"four".to_vec(), PacketDirection::OUT, false, 12),
            (b"".to_vec(), PacketDirection::IN, false, 13),
        ]
    );
    assert!(s.conversation(PortPair { src: 8080, dst: 40000 }).is_none());
}

#[test]
fn conversations_are_kept_apart() {
    let ports = watching(&[8080]);
    let mut s = Sniffer::new("eth0", 5000);
    s.record_segment(&ports, &segment(40000, 8080, 0x18, b"a"), 1);
    s.record_segment(&ports, &segment(40001, 8080, 0x18, b"b"), 2);
    s.record_segment(&ports, &segment(40000, 8080, 0x18, b"c"), 3);
    let a = s.conversation(PortPair { src: 40000, dst: 8080 }).unwrap();
    let b = s.conversation(PortPair { src: 40001, dst: 8080 }).unwrap();
    assert_eq!(a.packets.len(), 2);
    assert_eq!(b.packets.len(), 1);
    assert_eq!(b.packets[0].payload, b"b".to_vec());
}

#[test]
fn fin_adds_a_completion_marker() {
    let ports = watching(&[8080]);
    let mut s = Sniffer::new("eth0", 5000);
    s.record_segment(&ports, &segment(8080, 40000, 0x11, b"bye"), 7);
    let c = s.conversation(PortPair { src: 40000, dst: 8080 }).unwrap();
    assert_eq!(
        fragments(c),
        vec![
            (b"bye".to_vec(), PacketDirection::OUT, false, 7),
            (b"bye".to_vec(), PacketDirection::OUT, true, 7),
        ]
    );
}

#[test]
fn rst_adds_a_completion_marker() {
    let ports = watching(&[8080]);
    let mut s = Sniffer::new("eth0", 5000);
    s.record_segment(&ports, &segment(40000, 8080, 0x04, b""), 7);
    let c = s.conversation(PortPair { src: 40000, dst: 8080 }).unwrap();
    assert_eq!(c.packets.len(), 2);
    assert!(!c.packets[0].completed);
    assert!(c.packets[1].completed);
}

#[test]
fn unwatched_segments_are_ignored() {
    let ports = watching(&[8080]);
    let mut s = Sniffer::new("eth0", 5000);
    s.record_segment(&ports, &segment(40000, 9090, 0x18, b"x"), 1);
    assert!(s.conversation(PortPair { src: 40000, dst: 9090 }).is_none());
    assert!(s.conversation(PortPair { src: 9090, dst: 40000 }).is_none());
    assert!(s.reap_expired(1_000_000).is_empty());
}

#[test]
fn conversation_is_reaped_only_after_the_ttl() {
    let ports = watching(&[8080]);
    let pair = PortPair { src: 40000, dst: 8080 };
    let mut s = Sniffer::new("eth0", 5000);
    s.record_segment(&ports, &segment(40000, 8080, 0x18, b"x"), 1000);
    assert!(s.reap_expired(5999).is_empty());
    assert!(s.conversation(pair).is_some());
    assert!(s.reap_expired(6000).is_empty());
    assert!(s.conversation(pair).is_some());
    let gone = s.reap_expired(6001);
    assert_eq!(gone.len(), 1);
    assert_eq!(gone[0].port_pair, pair);
    assert!(s.conversation(pair).is_none());
}

#[test]
fn completed_conversation_still_waits_for_the_ttl() {
    let ports = watching(&[8080]);
    let pair = PortPair { src: 40000, dst: 8080 };
    let mut s = Sniffer::new("eth0", 100);
    s.record_segment(&ports, &segment(40000, 8080, 0x01, b""), 50);
    assert!(s.reap_expired(150).is_empty());
    assert_eq!(s.reap_expired(151).len(), 1);
    assert!(s.conversation(pair).is_none());
}

#[test]
fn only_idle_conversations_are_reaped() {
    let ports = watching(&[8080]);
    let mut s = Sniffer::new("eth0", 100);
    s.record_segment(&ports, &segment(40000, 8080, 0x18, b"old"), 0);
    s.record_segment(&ports, &segment(40001, 8080, 0x18, b"new"), 90);
    let gone = s.reap_expired(150);
    assert_eq!(gone.len(), 1);
    assert_eq!(gone[0].port_pair, PortPair { src: 40000, dst: 8080 });
    assert!(s.conversation(PortPair { src: 40001, dst: 8080 }).is_some());
}

#[test]
fn reappearing_ports_start_a_fresh_conversation() {
    let ports = watching(&[8080]);
    let pair = PortPair { src: 40000, dst: 8080 };
    let mut s = Sniffer::new("eth0", 10);
    s.record_segment(&ports, &segment(40000, 8080, 0x18, b"first"), 0);
    assert_eq!(s.reap_expired(100).len(), 1);
    s.record_segment(&ports, &segment(40000, 8080, 0x18, b"second"), 200);
    let c = s.conversation(pair).unwrap();
    assert_eq!(c.packets.len(), 1);
    assert_eq!(c.packets[0].payload, b"second".to_vec());
}

#[test]
fn captured_exchange_is_handed_off_after_the_ttl() {
    let mut ports = PortRegistry::new();
    assert!(ports.watch_service(8080));
    let ttl = 5000;
    let mut s = Sniffer::new("eth0", ttl);
    let frames = [
        (tcp_frame(40000, 8080, 0x18, b"GET /"), 1_000),
        (tcp_frame(40000, 8080, 0x18, b"flag{abc}"), 1_010),
        (tcp_frame(40000, 8080, 0x11, b""), 1_020),
    ];
    for (frame, at) in frames.iter() {
        let seg = decode_frame(frame).unwrap();
        s.record_segment(&ports, &seg, *at);
    }
    assert!(s.reap_expired(1_020 + ttl).is_empty());
    let gone = s.reap_expired(1_020 + ttl + 1);
    assert_eq!(gone.len(), 1);
    let c = &gone[0];
    assert_eq!(c.port_pair, PortPair { src: 40000, dst: 8080 });
    assert_eq!(
        fragments(c),
        vec![
            (b"GET /".to_vec(), PacketDirection::IN, false, 1_000),
            (b"flag{abc}".to_vec(), PacketDirection::IN, false, 1_010),
            (b"".to_vec(), PacketDirection::IN, false, 1_020),
            (b"".to_vec(), PacketDirection::IN, true, 1_020),
        ]
    );
    let (stream, packets) = c.to_stored(77);
    assert_eq!(stream.id, 77);
    assert_eq!(stream.service_port, 8080);
    assert_eq!(packets.len(), 4);
    assert!(packets.iter().all(|p| p.stream_id == 77 && p.id == 0));
    let (started_at, ended_at) = time_bounds(&packets).unwrap();
    assert_eq!(started_at, 1_000);
    assert!(ended_at >= 1_020);
    assert!(s.conversation(c.port_pair).is_none());
}

#[test]
fn frames_are_recorded_with_the_current_time() {
    let ports = watching(&[8080]);
    let mut s = Sniffer::new("eth1", 60_000);
    s.handle_eth_packet(&ports, &tcp_frame(8080, 40000, 0x18, b"200 OK"));
    s.handle_eth_packet(&ports, &[0u8; 10]);
    let c = s.conversation(PortPair { src: 40000, dst: 8080 }).unwrap();
    assert_eq!(c.packets.len(), 1);
    assert_eq!(c.packets[0].payload, b"200 OK".to_vec());
    assert_eq!(c.packets[0].packet_direction, PacketDirection::OUT);
    assert!(c.packets[0].at > 1_600_000_000_000);
    assert!(s.manage_tcp_streams().is_empty());
    assert_eq!(s.interface_name(), "eth1");
    assert_eq!(s.tcp_stream_ttl(), 60_000);
}
