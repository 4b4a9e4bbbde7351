use resonance_capture::capture::PacketCapture;
use resonance_capture::item_names::is_name_text;

fn prefixed(text: &str) -> Vec<u8> {
    let mut v = vec![text.len() as u8];
    v.extend_from_slice(text.as_bytes());
    v
}

#[test]
fn names_found_sorted_and_deduplicated() {
    let mut p = prefixed("アイテム");
    p.extend_from_slice(&[0, 8]);
    p.extend_from_slice(b"sword_01");
    p.extend_from_slice(&prefixed("[ABC]x"));
    p.extend_from_slice(&prefixed("アイテム"));
    p.extend_from_slice(&[0, 0, 0, 0]);
    assert_eq!(
        PacketCapture::extract_japanese_strings(&p),
        vec!["sword_01".to_string(), "アイテム".to_string()]
    );
}

#[test]
fn ascii_id_of_three_bytes_is_taken() {
    let mut p = prefixed("ab-");
    p.extend_from_slice(&[0, 0, 0, 0]);
    assert_eq!(PacketCapture::extract_japanese_strings(&p), vec!["ab-".to_string()]);
}

#[test]
fn control_codes_and_invalid_utf8_are_skipped() {
    let mut p = vec![3, b'a', 0x01, b'b'];
    p.extend_from_slice(&[3, 0xff, 0xfe, 0xfd]);
    p.extend_from_slice(&[0, 0, 0, 0]);
    assert!(PacketCapture::extract_japanese_strings(&p).is_empty());
}

#[test]
fn scan_needs_four_bytes_left() {
    assert_eq!(PacketCapture::extract_japanese_strings(&prefixed("abc")), vec!["abc".to_string()]);
    assert!(PacketCapture::extract_japanese_strings(&[3, b'a', b'b']).is_empty());
    assert!(PacketCapture::extract_japanese_strings(&[]).is_empty());
}

#[test]
fn name_text_rules() {
    assert!(is_name_text("ポーション"));
    assert!(is_name_text("Item_42-b"));
    assert!(is_name_text("剣 of light"));
    assert!(!is_name_text("hello world"));
    assert!(!is_name_text("[GLD]ナイト"));
    assert!(is_name_text("[ナイト"));
    assert!(!is_name_text("ア\u{7}"));
    assert!(!is_name_text("ア\u{85}"));
}
