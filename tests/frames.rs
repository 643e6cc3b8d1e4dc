use c8488::frame::{Message, MessageError};

fn frame(typ: u8, total: u8, index: u8, payload: &[u8], end: u8) -> Vec<u8> {
    let mut f = vec![0u8; 64];
    f[0] = typ;
    f[1] = 0x12;
    f[2] = 0x34;
    f[5] = (total << 4) | index;
    f[6] = payload.len() as u8;
    f[7..7 + payload.len()].copy_from_slice(payload);
    f[61] = 0xab;
    f[62] = 0xcd;
    f[63] = end;
    f
}

#[test]
fn single_fragment_message_completes() {
    let payload = "0 2023-05-01 12:30 21.0 45 ...";
    let mut m = Message::new();
    assert!(!m.complete());
    assert_eq!(m.push(&frame(0xfe, 1, 1, payload.as_bytes(), 0xfd)), Ok(()));
    assert!(m.complete());
    assert_eq!(m.finish(), (0xfe, payload.to_string()));
}

#[test]
fn only_the_declared_payload_length_is_taken() {
    let mut f = frame(0xfe, 1, 1, b"abc", 0xfd);
    f[10] = b'x';
    f[11] = b'y';
    let mut m = Message::default();
    assert_eq!(m.push(&f), Ok(()));
    assert_eq!(m.finish(), (0xfe, "abc".to_string()));
}

#[test]
fn empty_payload_fragment_is_accepted() {
    let mut m = Message::new();
    assert_eq!(m.push(&frame(0xf1, 1, 1, b"", 0xfd)), Ok(()));
    assert!(m.complete());
    assert_eq!(m.finish(), (0xf1, String::new()));
}

#[test]
fn full_payload_slot_is_accepted() {
    let payload = [b'7'; 54];
    let mut m = Message::new();
    assert_eq!(m.push(&frame(0xfe, 1, 1, &payload, 0xfd)), Ok(()));
    assert_eq!(m.finish().1, "7".repeat(54));
}

#[test]
fn two_fragments_complete_after_the_second() {
    let mut m = Message::new();
    assert_eq!(m.push(&frame(0xfe, 2, 1, b"0 2023-05-01 ", 0xfd)), Ok(()));
    assert!(!m.complete());
    assert_eq!(m.push(&frame(0xfe, 2, 2, b"12:30 21.0", 0xfd)), Ok(()));
    assert!(m.complete());
    assert_eq!(m.finish(), (0xfe, "0 2023-05-01 12:30 21.0".to_string()));
}

#[test]
fn second_fragment_first_is_a_sequence_error() {
    let mut m = Message::new();
    assert_eq!(m.push(&frame(0xfe, 2, 2, b"12:30", 0xfd)), Err(MessageError::SequenceError));
    assert!(!m.complete());
}

#[test]
fn fragments_join_in_order() {
    let parts: [&[u8]; 3] = [b"one ", b"two ", b"three"];
    let mut m = Message::new();
    for (i, p) in parts.iter().enumerate() {
        assert!(!m.complete());
        assert_eq!(m.push(&frame(0xfe, 3, i as u8 + 1, p, 0xfd)), Ok(()));
    }
    assert!(m.complete());
    assert_eq!(m.finish(), (0xfe, "one two three".to_string()));
}

#[test]
fn skipped_index_leaves_text_untouched() {
    let mut m = Message::new();
    assert_eq!(m.push(&frame(0xfe, 3, 1, b"one ", 0xfd)), Ok(()));
    assert_eq!(m.push(&frame(0xfe, 3, 3, b"three", 0xfd)), Err(MessageError::SequenceError));
    assert_eq!(m.push(&frame(0xfe, 3, 1, b"again", 0xfd)), Err(MessageError::SequenceError));
    assert_eq!(m.push(&frame(0xfe, 3, 2, b"two ", 0xfd)), Ok(()));
    assert_eq!(m.push(&frame(0xfe, 3, 3, b"three", 0xfd)), Ok(()));
    assert_eq!(m.finish(), (0xfe, "one two three".to_string()));
}

#[test]
fn short_and_long_buffers_are_malformed() {
    let mut m = Message::new();
    assert_eq!(m.push(&[0xfe; 63]), Err(MessageError::MalformedFrame));
    assert_eq!(m.push(&[0xfe; 65]), Err(MessageError::MalformedFrame));
    assert_eq!(m.push(&[]), Err(MessageError::MalformedFrame));
    let mut f = frame(0xfe, 1, 1, b"abc", 0xfd);
    f.push(0xfd);
    assert_eq!(m.push(&f), Err(MessageError::MalformedFrame));
    f.truncate(63);
    assert_eq!(m.push(&f), Err(MessageError::MalformedFrame));
    assert!(!m.complete());
}

#[test]
fn wrong_end_marker_is_a_sequence_error() {
    let mut m = Message::new();
    assert_eq!(m.push(&frame(0xfe, 1, 1, b"abc", 0xfc)), Err(MessageError::SequenceError));
}

#[test]
fn type_change_is_a_sequence_error() {
    let mut m = Message::new();
    assert_eq!(m.push(&frame(0xfe, 2, 1, b"abc", 0xfd)), Ok(()));
    assert_eq!(m.push(&frame(0xfb, 2, 2, b"def", 0xfd)), Err(MessageError::SequenceError));
}

#[test]
fn count_change_is_a_sequence_error() {
    let mut m = Message::new();
    assert_eq!(m.push(&frame(0xfe, 2, 1, b"abc", 0xfd)), Ok(()));
    assert_eq!(m.push(&frame(0xfe, 3, 2, b"def", 0xfd)), Err(MessageError::SequenceError));
}

#[test]
fn invalid_utf8_payload_is_an_encoding_error() {
    let mut m = Message::new();
    assert_eq!(m.push(&frame(0xfe, 1, 1, &[0x41, 0xc3, 0x28], 0xfd)), Err(MessageError::EncodingError));
    assert!(!m.complete());
}

#[test]
fn multibyte_text_is_decoded() {
    let mut m = Message::new();
    assert_eq!(m.push(&frame(0xfe, 1, 1, "21.0°C".as_bytes(), 0xfd)), Ok(()));
    assert_eq!(m.finish().1, "21.0°C");
}

#[test]
fn push_after_completion_is_reported() {
    let mut m = Message::new();
    assert_eq!(m.push(&frame(0xfe, 1, 1, b"abc", 0xfd)), Ok(()));
    assert_eq!(m.push(&frame(0xfe, 1, 1, b"def", 0xfd)), Err(MessageError::AlreadyComplete));
    assert_eq!(m.finish(), (0xfe, "abc".to_string()));
}

#[test]
fn zero_fragment_count_is_already_complete() {
    let mut m = Message::new();
    assert_eq!(m.push(&frame(0xfe, 0, 1, b"abc", 0xfd)), Err(MessageError::AlreadyComplete));
}
