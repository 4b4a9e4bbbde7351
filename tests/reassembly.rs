use resonance_capture::reassembler::TCPReassembler;

fn frame(payload: &[u8]) -> Vec<u8> {
    let mut v = (6 + payload.len() as u32).to_le_bytes().to_vec();
    v.extend_from_slice(&[0, 0]);
    v.extend_from_slice(payload);
    v
}

#[test]
fn in_order_segments_join() {
    let mut r = TCPReassembler::new();
    r.add_packet(100, b"AB".to_vec());
    assert!(r.reassemble());
    assert_eq!(r.data, b"AB".to_vec());
    r.add_packet(102, b"CD".to_vec());
    assert!(r.reassemble());
    assert_eq!(r.data, b"ABCD".to_vec());
    assert_eq!(r.next_seq, Some(104));
    assert!(r.cache.is_empty());
}

#[test]
fn later_segment_waits_for_gap_to_fill() {
    let mut r = TCPReassembler::new();
    r.clear(100);
    r.add_packet(102, b"CD".to_vec());
    assert!(!r.reassemble());
    assert!(r.data.is_empty());
    assert_eq!(r.cache.get(&102), Some(&b"CD".to_vec()));
    r.add_packet(100, b"AB".to_vec());
    assert!(r.reassemble());
    assert_eq!(r.data, b"ABCD".to_vec());
    assert!(r.cache.is_empty());
}

#[test]
fn gap_keeps_segment_pending() {
    let mut r = TCPReassembler::new();
    r.clear(100);
    r.add_packet(100, b"A".to_vec());
    r.reassemble();
    r.add_packet(102, b"CD".to_vec());
    r.reassemble();
    assert_eq!(r.data, b"A".to_vec());
    assert_eq!(r.next_seq, Some(101));
    assert_eq!(r.cache.len(), 1);
    r.add_packet(101, b"B".to_vec());
    r.reassemble();
    assert_eq!(r.data, b"ABCD".to_vec());
}

#[test]
fn any_delivery_order_gives_same_stream() {
    let segs: Vec<(usize, &[u8])> = vec![(500, b"ab"), (502, b"cde"), (505, b"f"), (506, b"ghij")];
    let orders = [[0, 1, 2, 3], [3, 2, 1, 0], [2, 0, 3, 1], [1, 3, 0, 2]];
    for order in orders {
        let mut r = TCPReassembler::new();
        r.clear(500);
        for i in order {
            r.add_packet(segs[i].0, segs[i].1.to_vec());
            r.reassemble();
        }
        assert_eq!(r.data, b"abcdefghij".to_vec());
        assert_eq!(r.next_seq, Some(510));
        assert!(r.cache.is_empty());
    }
}

#[test]
fn segment_behind_expected_is_dropped() {
    let mut r = TCPReassembler::new();
    r.clear(200);
    r.add_packet(150, b"old".to_vec());
    assert!(r.cache.is_empty());
    assert!(!r.reassemble());
    assert!(r.data.is_empty());
}

#[test]
fn reassemble_without_start_makes_no_progress() {
    let mut r = TCPReassembler::new();
    assert!(!r.reassemble());
    assert_eq!(r.next_seq, None);
}

#[test]
fn sequence_numbers_wrap_at_32_bits() {
    let mut r = TCPReassembler::new();
    r.clear(0xFFFF_FFFE);
    r.add_packet(0xFFFF_FFFE, b"wxyz".to_vec());
    r.reassemble();
    assert_eq!(r.next_seq, Some(2));
    r.add_packet(2, b"!".to_vec());
    r.reassemble();
    assert_eq!(r.data, b"wxyz!".to_vec());
}

#[test]
fn clear_resets_buffers() {
    let mut r = TCPReassembler::default();
    r.add_packet(10, b"abc".to_vec());
    r.add_packet(20, b"zz".to_vec());
    r.reassemble();
    r.clear(77);
    assert_eq!(r.next_seq, Some(77));
    assert!(r.cache.is_empty());
    assert!(r.data.is_empty());
}

#[test]
fn extract_waits_for_whole_frame() {
    let mut r = TCPReassembler::new();
    let f = frame(b"hello");
    r.data = f[..7].to_vec();
    assert_eq!(r.extract_packet(), None);
    assert_eq!(r.data, f[..7].to_vec());
}

#[test]
fn extract_takes_frames_in_order_without_repeats() {
    let mut r = TCPReassembler::new();
    let f1 = frame(b"one");
    let f2 = frame(b"second");
    let mut buf = f1.clone();
    buf.extend_from_slice(&f2);
    buf.extend_from_slice(&[1, 2]);
    r.data = buf;
    assert_eq!(r.extract_packet(), Some(f1));
    assert_eq!(r.extract_packet(), Some(f2));
    assert_eq!(r.extract_packet(), None);
    assert_eq!(r.data, vec![1, 2]);
}

#[test]
fn extract_discards_buffer_on_malformed_size() {
    let mut r = TCPReassembler::new();
    r.data = vec![5, 0, 0, 0, 1, 2, 3, 4, 5, 6];
    assert_eq!(r.extract_packet(), None);
    assert!(r.data.is_empty());
    r.data = vec![0x01, 0x00, 0x10, 0x00, 0, 0];
    assert_eq!(r.extract_packet(), None);
    assert!(r.data.is_empty());
}

#[test]
fn extract_header_only_frame() {
    let mut r = TCPReassembler::new();
    r.data = vec![6, 0, 0, 0, 1, 0, 9];
    assert_eq!(r.extract_packet(), Some(vec![6, 0, 0, 0, 1, 0]));
    assert_eq!(r.data, vec![9]);
}

#[test]
fn segment_inside_consumed_bytes_is_dropped() {
    let mut r = TCPReassembler::new();
    r.clear(100);
    r.add_packet(100, b"ABCD".to_vec());
    r.add_packet(102, b"CD".to_vec());
    assert!(r.reassemble());
    assert_eq!(r.data, b"ABCD".to_vec());
    assert_eq!(r.next_seq, Some(104));
    assert!(r.cache.is_empty());
}

#[test]
fn later_segments_stay_pending_after_drain() {
    let mut r = TCPReassembler::new();
    r.clear(100);
    r.add_packet(100, b"AB".to_vec());
    r.add_packet(101, b"B".to_vec());
    r.add_packet(105, b"F".to_vec());
    r.reassemble();
    assert_eq!(r.data, b"AB".to_vec());
    assert_eq!(r.next_seq, Some(102));
    assert_eq!(r.cache.keys().copied().collect::<Vec<usize>>(), vec![105]);
}

#[test]
fn covered_keys_dropped_across_wrap() {
    let mut r = TCPReassembler::new();
    r.clear(0xFFFF_FFFE);
    r.add_packet(0xFFFF_FFFE, b"wxyz".to_vec());
    r.add_packet(0xFFFF_FFFF, b"xy".to_vec());
    r.reassemble();
    assert_eq!(r.next_seq, Some(2));
    assert!(r.cache.is_empty());
    assert_eq!(r.data, b"wxyz".to_vec());
}
