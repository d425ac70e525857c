use stream_sniffer::decode::{decode_frame, is_closing};

fn ethernet(ethertype: u16, body: &[u8]) -> Vec<u8> {
    let mut f = vec![0u8; 12];
    f.extend_from_slice(&ethertype.to_be_bytes());
    f.extend_from_slice(body);
    f
}

fn ipv4(protocol: u8, header_words: u8, total_len: u16, body: &[u8]) -> Vec<u8> {
    let mut p = vec![0u8; 20];
    p[0] = 0x40 | header_words;
    p[2..4].copy_from_slice(&total_len.to_be_bytes());
    p[8] = 64;
    p[9] = protocol;
    p.extend(std::iter::repeat(0u8).take((header_words as usize * 4).saturating_sub(20)));
    p.extend_from_slice(body);
    p
}

fn tcp(src: u16, dst: u16, flags: u8, offset_words: u8, payload: &[u8]) -> Vec<u8> {
    let mut t = vec![0u8; 20];
    t[0..2].copy_from_slice(&src.to_be_bytes());
    t[2..4].copy_from_slice(&dst.to_be_bytes());
    t[12] = offset_words << 4;
    t[13] = flags;
    t.extend(std::iter::repeat(1u8).take((offset_words as usize * 4).saturating_sub(20)));
    t.extend_from_slice(payload);
    t
}

fn tcp_frame(src: u16, dst: u16, flags: u8, payload: &[u8]) -> Vec<u8> {
    let seg = tcp(src, dst, flags, 5, payload);
    let total = 20 + seg.len() as u16;
    ethernet(0x0800, &ipv4(6, 5, total, &seg))
}

#[test]
fn tcp_frame_is_decoded() {
    let s = decode_frame(&tcp_frame(40000, 8080, 0x18, b"GET /")).unwrap();
    assert_eq!(s.source_port, 40000);
    assert_eq!(s.destination_port, 8080);
    assert_eq!(s.flags, 0x18);
    assert_eq!(s.payload, b"GET /".to_vec());
}

#[test]
fn frame_that_is_not_ipv4_is_dropped() {
    let seg = tcp(1, 2, 0, 5, b"x");
    let frame = ethernet(0x86dd, &ipv4(6, 5, 41, &seg));
    assert!(decode_frame(&frame).is_none());
}

#[test]
fn packet_that_is_not_tcp_is_dropped() {
    let seg = tcp(1, 2, 0, 5, b"x");
    let frame = ethernet(0x0800, &ipv4(17, 5, 41, &seg));
    assert!(decode_frame(&frame).is_none());
}

#[test]
fn truncated_frames_are_dropped() {
    assert!(decode_frame(&[0u8; 13]).is_none());
    assert!(decode_frame(&ethernet(0x0800, &[0x45u8; 19])).is_none());
    let short_tcp = ipv4(6, 5, 39, &[0u8; 19]);
    assert!(decode_frame(&ethernet(0x0800, &short_tcp)).is_none());
}

#[test]
fn tcp_options_are_skipped() {
    let seg = tcp(5000, 22, 0x10, 7, b"data");
    let total = 20 + seg.len() as u16;
    let s = decode_frame(&ethernet(0x0800, &ipv4(6, 5, total, &seg))).unwrap();
    assert_eq!(s.payload, b"data".to_vec());
}

#[test]
fn ip_options_are_skipped() {
    let seg = tcp(5000, 22, 0x10, 5, b"xyz");
    let total = 24 + seg.len() as u16;
    let s = decode_frame(&ethernet(0x0800, &ipv4(6, 6, total, &seg))).unwrap();
    assert_eq!(s.source_port, 5000);
    assert_eq!(s.payload, b"xyz".to_vec());
}

#[test]
fn link_padding_after_the_ip_packet_is_not_payload() {
    let seg = tcp(5000, 22, 0x10, 5, b"ab");
    let total = 20 + seg.len() as u16;
    let mut body = ipv4(6, 5, total, &seg);
    body.extend_from_slice(&[0u8; 6]);
    let s = decode_frame(&ethernet(0x0800, &body)).unwrap();
    assert_eq!(s.payload, b"ab".to_vec());
}

#[test]
fn fin_and_rst_close_a_conversation() {
    assert!(is_closing(0x01));
    assert!(is_closing(0x04));
    assert!(is_closing(0x11));
    assert!(is_closing(0x14));
    assert!(!is_closing(0x12));
    assert!(!is_closing(0x10));
    assert!(!is_closing(0x00));
}
