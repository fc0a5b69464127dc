use bytes::BytesMut;
use ws_relay::frame::{decode_payload, encode_masked, get_text, set_text, FrameError};

#[test]
fn test_ws_get_text() {
    let msg = "aaa";

    let mut buf = BytesMut::with_capacity(1024);
    buf.extend_from_slice(&[129, 131, 194, 47, 97, 242, 163, 78, 0]);

    let decoded = get_text(&buf[..]).expect("failed to decode frame");
    assert_eq!(decoded, msg);
}

#[test]
fn test_ws_text_frame_small() {
    let msg = "a".repeat(3);
    let mut buf = BytesMut::with_capacity(1024);

    let _ = set_text(&mut buf, &msg);
    let decoded = get_text(&buf[..]).expect("failed to decode frame");
    assert_eq!(decoded, msg);
}

#[test]
fn test_ws_text_frame_medium() {
    let msg = "a".repeat(150);
    let mut buf = BytesMut::with_capacity(1024);

    let _ = set_text(&mut buf, &msg);
    let decoded = get_text(&buf[..]).expect("failed to decode frame");
    assert_eq!(decoded, msg);
}

#[test]
fn test_ws_text_frame_huge() {
    let msg = "a".repeat(65536);
    let mut buf = BytesMut::with_capacity(1024 * 1024);

    let _ = set_text(&mut buf, &msg);
    let decoded = get_text(&buf[..]).expect("failed to decode frame");
    assert_eq!(decoded, msg);
}

#[test]
fn round_trip_all_length_tiers() {
    for len in [0usize, 1, 125, 126, 65535, 65536, 300000] {
        let msg = "x".repeat(len);
        let mut buf = BytesMut::with_capacity(len + 16);
        let written = set_text(&mut buf, &msg);
        assert_eq!(written, buf.len());
        let decoded = get_text(&buf[..]).expect("failed to decode frame");
        assert_eq!(decoded, msg);
    }
}

#[test]
fn exact_small_frame_bytes() {
    let mut buf = BytesMut::with_capacity(16);
    let n = set_text(&mut buf, "abc");
    assert_eq!(n, 5);
    assert_eq!(&buf[..], &[0x81, 3, 97, 98, 99]);
}

#[test]
fn exact_medium_frame_header() {
    let msg = "a".repeat(300);
    let mut buf = BytesMut::with_capacity(512);
    let _ = set_text(&mut buf, &msg);
    assert_eq!(&buf[..4], &[0x81, 126, 1, 44]);
}

#[test]
fn exact_huge_frame_header() {
    let msg = "a".repeat(65536);
    let mut buf = BytesMut::with_capacity(1 << 17);
    let _ = set_text(&mut buf, &msg);
    assert_eq!(&buf[..10], &[0x81, 127, 0, 0, 0, 0, 0, 1, 0, 0]);
}

#[test]
fn masked_round_trip() {
    for len in [0usize, 1, 125, 126, 65535, 65536] {
        let msg = "m".repeat(len);
        let frame = encode_masked(msg.as_bytes(), &[7, 1, 255, 3]);
        let decoded = get_text(&frame[..]).expect("failed to decode masked frame");
        assert_eq!(decoded, msg);
    }
}

#[test]
fn masked_payload_is_actually_masked() {
    let frame = encode_masked("abc".as_bytes(), &[0xff, 0x00, 0xff, 0x00]);
    // header, then the four key bytes, then the masked payload
    assert_eq!(&frame[..], &[0x81, 0x83, 0xff, 0x00, 0xff, 0x00, 0x9e, b'b', 0x9c]);
}

#[test]
fn declared_length_beyond_buffer_is_truncated() {
    // one-byte tier declaring five bytes, three supplied
    assert_eq!(get_text(&[0x81, 5, b'a', b'b', b'c']), Err(FrameError::Truncated));
    // two-byte tier declaring 256 bytes, none supplied
    assert_eq!(get_text(&[0x81, 126, 1, 0]), Err(FrameError::Truncated));
    // eight-byte tier cut short inside the length field
    assert_eq!(get_text(&[0x81, 127, 0, 0]), Err(FrameError::Truncated));
    // masked frame with too few bytes for the mask key
    assert_eq!(get_text(&[0x81, 0x81, 1, 2]), Err(FrameError::Truncated));
    // empty and one-byte buffers
    assert_eq!(get_text(&[]), Err(FrameError::Truncated));
    assert_eq!(get_text(&[0x81]), Err(FrameError::Truncated));
}

#[test]
fn invalid_utf8_payload_is_rejected() {
    assert_eq!(get_text(&[0x81, 1, 0xff]), Err(FrameError::InvalidUtf8));
    // the raw payload is still recoverable as bytes
    assert_eq!(decode_payload(&[0x81, 1, 0xff]).unwrap(), vec![0xff]);
}

#[test]
fn trailing_bytes_are_ignored() {
    let decoded = get_text(&[0x81, 2, b'h', b'i', 0, 0, 0]).expect("failed to decode frame");
    assert_eq!(decoded, "hi");
}
