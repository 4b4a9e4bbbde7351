use resonance_capture::capture::{
    create_windivert_filter, parse_tcp_segment, CaptureState, GameServer, PacketCapture, TcpSegment,
};
use resonance_capture::frame::GamePacket;
use resonance_capture::signature::LOGIN_PACKET_SIZE;
use std::sync::atomic::Ordering;

const SERVER: [u8; 4] = [10, 0, 0, 1];
const CLIENT: [u8; 4] = [192, 168, 1, 20];

fn segment(src: [u8; 4], sport: u16, seq: u32, payload: &[u8]) -> TcpSegment {
    TcpSegment {
        source_ip: u32::from_be_bytes(src),
        source_port: sport,
        dest_ip: u32::from_be_bytes(CLIENT),
        dest_port: 50000,
        sequence: seq,
        payload: payload.to_vec(),
    }
}

fn signature_payload() -> Vec<u8> {
    let mut p = vec![0u8; 24];
    p[12..18].copy_from_slice(&[0x00, 0x63, 0x33, 0x53, 0x42, 0x00]);
    p
}

fn login_payload() -> Vec<u8> {
    let mut p = vec![0x55u8; LOGIN_PACKET_SIZE];
    p[0..10].copy_from_slice(&[0x00, 0x00, 0x00, 0x62, 0x00, 0x03, 0x00, 0x00, 0x00, 0x01]);
    p[14..20].copy_from_slice(&[0x00, 0x00, 0x00, 0x00, 0x0a, 0x4e]);
    p
}

fn frame(kind: u16, payload: &[u8]) -> Vec<u8> {
    let mut v = (6 + payload.len() as u32).to_le_bytes().to_vec();
    v.extend_from_slice(&kind.to_le_bytes());
    v.extend_from_slice(payload);
    v
}

fn datagram(src: [u8; 4], sport: u16, seq: u32, payload: &[u8]) -> Vec<u8> {
    let builder = etherparse::PacketBuilder::ipv4(src, CLIENT, 64).tcp(sport, 50000, seq, 1024);
    let mut out = Vec::new();
    builder.write(&mut out, payload).unwrap();
    out
}

#[test]
fn signature_at_any_offset_is_found() {
    assert!(PacketCapture::check_game_signature(&signature_payload()));
    let sig = [0x00, 0x63, 0x33, 0x53, 0x42, 0x00];
    assert!(PacketCapture::check_game_signature(&sig));
    let mut tail = vec![7u8; 30];
    tail[24..30].copy_from_slice(&sig);
    assert!(PacketCapture::check_game_signature(&tail));
    assert!(!PacketCapture::check_game_signature(&[0x00, 0x63, 0x33, 0x53, 0x42]));
    assert!(!PacketCapture::check_game_signature(&vec![0u8; 40]));
}

#[test]
fn signature_at_usual_offset() {
    let mut p = vec![1u8; 12];
    p[5..11].copy_from_slice(&[0x00, 0x63, 0x33, 0x53, 0x42, 0x00]);
    assert!(GamePacket::has_game_signature(&p));
    assert!(!GamePacket::has_game_signature(&signature_payload()));
    assert!(!GamePacket::has_game_signature(&p[..10]));
}

#[test]
fn login_constants_match_exactly() {
    let p = login_payload();
    assert!(GamePacket::is_login_packet(&p));
    assert!(PacketCapture::check_login_packet(&p));
    let mut first = p.clone();
    first[0] ^= 0xff;
    assert!(!GamePacket::is_login_packet(&first));
    let mut last = p.clone();
    last[19] ^= 0x01;
    assert!(!GamePacket::is_login_packet(&last));
    let mut other = p.clone();
    other[12] = 0;
    assert!(GamePacket::is_login_packet(&other));
    assert!(!GamePacket::is_login_packet(&p[..97]));
    let mut longer = p.clone();
    longer.push(0);
    assert!(!GamePacket::is_login_packet(&longer));
}

#[test]
fn signature_locks_connection_and_seeds_sequence() {
    let mut st = CaptureState::new();
    let sig = signature_payload();
    let frames = st.handle_segment(segment(SERVER, 443, 1000, &sig));
    assert!(frames.is_empty());
    assert_eq!(
        st.known_server,
        Some(GameServer::new(u32::from_be_bytes(SERVER), 443, u32::from_be_bytes(CLIENT), 50000))
    );
    assert_eq!(st.reassembler.next_seq, Some(1000 + sig.len()));
    assert!(st.reassembler.data.is_empty());
}

#[test]
fn login_segment_locks_connection() {
    let mut st = CaptureState::new();
    let frames = st.handle_segment(segment(SERVER, 443, 5, &login_payload()));
    assert!(frames.is_empty());
    assert!(st.known_server.is_some());
    assert_eq!(st.reassembler.next_seq, Some(5 + LOGIN_PACKET_SIZE));
}

#[test]
fn unrelated_traffic_leaves_state_unlocked() {
    let mut st = CaptureState::new();
    let frames = st.handle_segment(segment(SERVER, 80, 1, b"GET / HTTP/1.1"));
    assert!(frames.is_empty());
    assert!(st.known_server.is_none());
}

#[test]
fn locked_stream_yields_frames_in_order() {
    let mut st = CaptureState::new();
    st.handle_segment(segment(SERVER, 443, 1000, &signature_payload()));
    let start = 1000 + 24;
    let f1 = frame(0, b"first");
    let f2 = frame(1, b"second!");
    let mut bytes = f1.clone();
    bytes.extend_from_slice(&f2);
    let (a, b) = bytes.split_at(8);
    let none = st.handle_segment(segment(SERVER, 443, start + 8, b));
    assert!(none.is_empty());
    let frames = st.handle_segment(segment(SERVER, 443, start, a));
    assert_eq!(frames, vec![f1, f2]);
    assert!(st.reassembler.data.is_empty());
}

#[test]
fn other_connections_are_ignored_once_locked() {
    let mut st = CaptureState::new();
    st.handle_segment(segment(SERVER, 443, 1000, &signature_payload()));
    let frames = st.handle_segment(segment([10, 0, 0, 9], 443, 1024, &frame(0, b"x")));
    assert!(frames.is_empty());
    let relock = st.handle_segment(segment([10, 0, 0, 9], 443, 1, &signature_payload()));
    assert!(relock.is_empty());
    assert_eq!(st.known_server.unwrap().source_ip, u32::from_be_bytes(SERVER));
    assert!(st.reassembler.cache.is_empty());
}

#[test]
fn empty_segments_are_ignored() {
    let mut st = CaptureState::new();
    st.handle_segment(segment(SERVER, 443, 1000, &signature_payload()));
    let frames = st.handle_segment(segment(SERVER, 443, 1024, &[]));
    assert!(frames.is_empty());
    assert!(st.reassembler.cache.is_empty());
    assert_eq!(st.reassembler.next_seq, Some(1024));
}

#[test]
fn datagram_is_sliced_to_tcp_segment() {
    let d = datagram(SERVER, 443, 77, b"payload");
    let seg = parse_tcp_segment(&d).unwrap();
    assert_eq!(seg.source_ip, u32::from_be_bytes(SERVER));
    assert_eq!(seg.source_port, 443);
    assert_eq!(seg.dest_ip, u32::from_be_bytes(CLIENT));
    assert_eq!(seg.dest_port, 50000);
    assert_eq!(seg.sequence, 77);
    assert_eq!(seg.payload, b"payload".to_vec());
}

#[test]
fn non_tcp_and_garbage_datagrams_are_ignored() {
    let builder = etherparse::PacketBuilder::ipv4(SERVER, CLIENT, 64).udp(53, 53);
    let mut udp = Vec::new();
    builder.write(&mut udp, b"dns").unwrap();
    assert!(parse_tcp_segment(&udp).is_none());
    assert!(parse_tcp_segment(&[0xff, 1, 2]).is_none());
    let mut st = CaptureState::new();
    assert!(st.handle_datagram(&udp).is_empty());
    assert!(st.known_server.is_none());
}

#[test]
fn datagrams_drive_the_whole_pipeline() {
    let mut st = CaptureState::new();
    let sig = signature_payload();
    assert!(st.handle_datagram(&datagram(SERVER, 443, 9000, &sig)).is_empty());
    let f = frame(0, b"notify-body");
    let frames = st.handle_datagram(&datagram(SERVER, 443, 9000 + sig.len() as u32, &f));
    assert_eq!(frames, vec![f]);
}

#[test]
fn filter_selects_non_loopback_tcp() {
    assert_eq!(create_windivert_filter(), "!loopback && ip && tcp");
}

#[test]
fn run_flag_is_shared_and_cleared_by_stop() {
    let capture = PacketCapture::new();
    let flag = capture.get_running();
    assert!(!flag.load(Ordering::SeqCst));
    flag.store(true, Ordering::SeqCst);
    assert!(capture.get_running().load(Ordering::SeqCst));
    capture.stop();
    assert!(!flag.load(Ordering::SeqCst));
}
