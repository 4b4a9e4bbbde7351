use resonance_capture::frame::PacketError;
use resonance_capture::models::{MarketPacketType, RawPacketData};
use resonance_capture::parser::{decompress_packet, decrypt_packet, PacketParser};

fn raw(payload: &[u8]) -> RawPacketData {
    RawPacketData {
        timestamp: 1_700_000_000_000,
        source_ip: "10.0.0.1".to_string(),
        dest_ip: "10.0.0.2".to_string(),
        source_port: 443,
        dest_port: 50000,
        payload: payload.to_vec(),
    }
}

#[test]
fn no_message_kind_is_recognised_yet() {
    let parser = PacketParser::new();
    assert!(parser.parse(&raw(&[1, 2, 3, 4, 5])).unwrap().is_none());
    assert!(parser.parse(&raw(&[])).unwrap().is_none());
    assert_eq!(parser.identify_packet_type(&[9, 9]).unwrap(), MarketPacketType::Unknown);
}

#[test]
fn read_fixed_width_fields() {
    let parser = PacketParser::new();
    let data = [0xffu8, 0x01, 0x02, 0x03, 0x04, 0x05, 0x06, 0x07, 0x08, 0xff];
    assert_eq!(parser.read_u32_le(&data, 1).unwrap(), 0x04030201);
    assert_eq!(parser.read_u64_le(&data, 1).unwrap(), 0x0807060504030201);
    assert_eq!(parser.read_u32_le(&data, 7).unwrap_err(), PacketError::OutOfRange);
    assert_eq!(parser.read_u64_le(&data, 3).unwrap_err(), PacketError::OutOfRange);
    assert_eq!(parser.read_u32_le(&data, usize::MAX).unwrap_err(), PacketError::OutOfRange);
}

#[test]
fn read_signed_field() {
    let parser = PacketParser::new();
    let neg = (-2i64).to_le_bytes();
    assert_eq!(parser.read_i64_le(&neg, 0).unwrap(), -2);
    let pos = 1234567i64.to_le_bytes();
    assert_eq!(parser.read_i64_le(&pos, 0).unwrap(), 1234567);
    let min = i64::MIN.to_le_bytes();
    assert_eq!(parser.read_i64_le(&min, 0).unwrap(), i64::MIN);
    assert_eq!(parser.read_i64_le(&min, 1).unwrap_err(), PacketError::OutOfRange);
}

#[test]
fn read_string_checks_bounds_and_encoding() {
    let parser = PacketParser::new();
    let data = "xxアイテムyy".as_bytes();
    assert_eq!(parser.read_string(data, 2, 12).unwrap(), "アイテム");
    assert_eq!(parser.read_string(data, 0, 0).unwrap(), "");
    assert_eq!(parser.read_string(data, 3, 3).unwrap_err(), PacketError::InvalidUtf8);
    assert_eq!(parser.read_string(data, 10, 20).unwrap_err(), PacketError::OutOfRange);
    assert_eq!(parser.read_string(data, usize::MAX, 2).unwrap_err(), PacketError::OutOfRange);
}

#[test]
fn payload_transforms_pass_bytes_through() {
    assert_eq!(decompress_packet(&[1, 2, 3]).unwrap(), vec![1, 2, 3]);
    assert_eq!(decrypt_packet(&[4, 5]).unwrap(), vec![4, 5]);
}
