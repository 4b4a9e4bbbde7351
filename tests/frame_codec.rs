use resonance_capture::compress::{decode_frame, decompress_zstd};
use resonance_capture::frame::{check_frame, FragmentType, FrameStatus, GamePacket, PacketError};

fn frame_bytes(declared: u32, packet_type: u16, payload: &[u8]) -> Vec<u8> {
    let mut v = declared.to_le_bytes().to_vec();
    v.extend_from_slice(&packet_type.to_le_bytes());
    v.extend_from_slice(payload);
    v
}

#[test]
fn parse_rejects_buffer_shorter_than_header() {
    let r = GamePacket::parse(&[1, 2, 3, 4, 5]);
    assert_eq!(r.unwrap_err(), PacketError::PacketTooSmall { len: 5 });
}

#[test]
fn parse_reads_header_fields() {
    let data = frame_bytes(9, 0x8001, &[7, 8, 9]);
    let p = GamePacket::parse(&data).unwrap();
    assert_eq!(p.size, 9);
    assert_eq!(p.packet_type, 0x8001);
    assert!(p.is_compressed);
    assert_eq!(p.fragment_type, FragmentType::FrameDown);
    assert_eq!(p.payload, vec![7, 8, 9]);
}

#[test]
fn parse_header_only_frame_has_empty_payload() {
    let data = frame_bytes(6, 0, &[]);
    let p = GamePacket::parse(&data).unwrap();
    assert!(!p.is_compressed);
    assert_eq!(p.fragment_type, FragmentType::Notify);
    assert!(p.payload.is_empty());
}

#[test]
fn fragment_kind_from_low_bits() {
    assert_eq!(FragmentType::from(0u16), FragmentType::Notify);
    assert_eq!(FragmentType::from(1u16), FragmentType::FrameDown);
    assert_eq!(FragmentType::from(2u16), FragmentType::Unknown);
    assert_eq!(FragmentType::from(0x7fffu16), FragmentType::Unknown);
    let p = GamePacket::parse(&frame_bytes(6, 0x8002, &[])).unwrap();
    assert_eq!(p.fragment_type, FragmentType::Unknown);
}

#[test]
fn notify_header_decoded_little_endian() {
    let mut payload = 0x0000000063335342u64.to_le_bytes().to_vec();
    payload.extend_from_slice(&0xdeadbeefu32.to_le_bytes());
    payload.extend_from_slice(&0x0102_0304u32.to_le_bytes());
    payload.extend_from_slice(&[0xaa, 0xbb]);
    let data = frame_bytes(6 + payload.len() as u32, 0, &payload);
    let p = GamePacket::parse(&data).unwrap();
    let n = p.parse_notify().unwrap();
    assert_eq!(n.service_uuid, 0x63335342);
    assert_eq!(n.method_id, 0x0102_0304);
    assert_eq!(n.data, vec![0xaa, 0xbb]);
}

#[test]
fn notify_header_of_exactly_sixteen_bytes_has_no_data() {
    let payload = [1u8; 16];
    let p = GamePacket::parse(&frame_bytes(22, 0, &payload)).unwrap();
    let n = p.parse_notify().unwrap();
    assert_eq!(n.service_uuid, 0x0101010101010101);
    assert_eq!(n.method_id, 0x01010101);
    assert!(n.data.is_empty());
}

#[test]
fn notify_too_short_is_reported() {
    let p = GamePacket::parse(&frame_bytes(21, 0, &[0u8; 15])).unwrap();
    assert_eq!(p.parse_notify().unwrap_err(), PacketError::NotifyTooSmall { len: 15 });
}

#[test]
fn declared_sizes_out_of_bounds_are_malformed() {
    for declared in [0u32, 5, 1_048_577] {
        let data = frame_bytes(declared, 0, &[0u8; 10]);
        assert_eq!(check_frame(&data), FrameStatus::Malformed, "size {}", declared);
    }
}

#[test]
fn header_only_declared_size_is_accepted() {
    let data = frame_bytes(6, 0, &[]);
    assert_eq!(check_frame(&data), FrameStatus::Ready(6));
}

#[test]
fn largest_declared_size_waits_for_data() {
    let data = frame_bytes(1_048_576, 0, &[0u8; 10]);
    assert_eq!(check_frame(&data), FrameStatus::NeedMore);
}

#[test]
fn fewer_than_four_bytes_wait_for_data() {
    assert_eq!(check_frame(&[]), FrameStatus::NeedMore);
    assert_eq!(check_frame(&[6, 0, 0]), FrameStatus::NeedMore);
}

#[test]
fn decompress_zstd_restores_payload() {
    let plain = b"notify payload notify payload notify payload".to_vec();
    let compressed = zstd::encode_all(&plain[..], 3).unwrap();
    assert_ne!(compressed, plain);
    assert_eq!(decompress_zstd(&compressed).unwrap(), plain);
}

#[test]
fn decompress_zstd_reports_corrupt_input() {
    assert_eq!(decompress_zstd(&[1, 2, 3, 4, 5]).unwrap_err(), PacketError::Decompression);
}

#[test]
fn decode_frame_decompresses_flagged_payload() {
    let inner = vec![9u8; 40];
    let compressed = zstd::encode_all(&inner[..], 3).unwrap();
    let data = frame_bytes(6 + compressed.len() as u32, 0x8000, &compressed);
    let p = decode_frame(&data).unwrap();
    assert!(p.is_compressed);
    assert_eq!(p.fragment_type, FragmentType::Notify);
    assert_eq!(p.payload, inner);
}

#[test]
fn decode_frame_keeps_plain_payload() {
    let data = frame_bytes(8, 0x0001, &[3, 4]);
    let p = decode_frame(&data).unwrap();
    assert_eq!(p.payload, vec![3, 4]);
    assert_eq!(p.fragment_type, FragmentType::FrameDown);
}

#[test]
fn decode_frame_drops_corrupt_compressed_payload() {
    let data = frame_bytes(9, 0x8000, &[1, 2, 3]);
    assert_eq!(decode_frame(&data).unwrap_err(), PacketError::Decompression);
}
