use mysticeti::{decode_frame, encode_frame, CodecError, MAX_MESSAGE_LEN};

#[test]
fn frame_round_trip() {
    let payload = vec![5u8, 6, 7];
    let frame = encode_frame(&payload).unwrap();
    assert_eq!(frame, vec![3, 0, 0, 0, 5, 6, 7]);
    let mut buf = frame.clone();
    buf.extend_from_slice(&[9, 9]);
    assert_eq!(decode_frame(&buf), Ok(Some((payload, 7))));
}

#[test]
fn length_is_little_endian() {
    let payload = vec![1u8; 0x0102];
    let frame = encode_frame(&payload).unwrap();
    assert_eq!(&frame[..4], &[0x02, 0x01, 0, 0]);
    assert_eq!(decode_frame(&frame), Ok(Some((payload, 4 + 0x0102))));
}

#[test]
fn incomplete_frames_yield_nothing() {
    assert_eq!(decode_frame(&[1, 0, 0]), Ok(None));
    assert_eq!(decode_frame(&[2, 0, 0, 0, 1]), Ok(None));
}

#[test]
fn oversized_frames_are_errors() {
    let big = vec![0u8; MAX_MESSAGE_LEN + 1];
    assert_eq!(encode_frame(&big), Err(CodecError::MessageTooLarge));
    assert!(encode_frame(&big[..MAX_MESSAGE_LEN]).is_ok());
    let len = (MAX_MESSAGE_LEN as u32 + 1).to_le_bytes();
    assert_eq!(decode_frame(&len), Err(CodecError::LengthExceedsLimit));
}
