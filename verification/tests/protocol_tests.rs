use gridgame::decimal::{parse_i32, parse_u32, u64_to_dec};
use gridgame::framer::FrameDecoder;
use gridgame::protocol::{DecodeError, MessagePacket, PacketType, RawPacket};

#[test]
fn message_round_trip() {
    let m = MessagePacket::new(170141183460469231731687303715884105727u128, "move 7 -1 0");
    let bytes = m.as_raw().as_bytes();
    let raw = RawPacket::from_bytes(&bytes).unwrap();
    let back = MessagePacket::from_raw(raw).unwrap();
    assert_eq!(back.time, 170141183460469231731687303715884105727u128);
    assert_eq!(back.msg, "move 7 -1 0");
}

#[test]
fn message_round_trip_empty_text() {
    let m = MessagePacket::new(0, "");
    let bytes = m.as_raw().as_bytes();
    let raw = RawPacket::from_bytes(&bytes).unwrap();
    let back = MessagePacket::from_raw(raw).unwrap();
    assert_eq!(back.time, 0);
    assert_eq!(back.msg, "");
}

#[test]
fn message_round_trip_non_ascii_text() {
    let m = MessagePacket::new(42, "héllo ☃");
    let bytes = m.as_raw().as_bytes();
    let raw = RawPacket::from_bytes(&bytes).unwrap();
    let back = MessagePacket::from_raw(raw).unwrap();
    assert_eq!(back.time, 42);
    assert_eq!(back.msg, "héllo ☃");
}

#[test]
fn packet_layout_on_the_wire() {
    let raw = RawPacket::new(PacketType::message(), &[9, 8, 7]);
    let bytes = raw.as_bytes();
    // Total size 6, little endian, then the tag, then the payload.
    assert_eq!(bytes, vec![6, 0, 1, 9, 8, 7]);
}

#[test]
fn from_bytes_rejects_short_and_oversized_declarations() {
    assert!(matches!(RawPacket::from_bytes(&[]), Err(DecodeError::TruncatedFrame)));
    let r = RawPacket::from_bytes(&[5, 0]);
    assert!(r.is_err());
    // Declared size 9 but only 4 bytes present.
    let r = RawPacket::from_bytes(&[9, 0, 1, 5]);
    assert!(matches!(r, Err(DecodeError::TruncatedFrame)));
    // Declared size 2 cannot even cover the header.
    let r = RawPacket::from_bytes(&[2, 0, 1, 5]);
    assert!(matches!(r, Err(DecodeError::TruncatedFrame)));
}

#[test]
fn from_bytes_ignores_trailing_bytes() {
    let raw = RawPacket::new(PacketType::raw(), &[1, 2]);
    let mut bytes = raw.as_bytes();
    bytes.extend_from_slice(&[99, 98, 97]);
    let parsed = RawPacket::from_bytes(&bytes).unwrap();
    assert_eq!(parsed.data(), &[1, 2]);
}

#[test]
fn from_raw_rejects_payload_shorter_than_timestamp() {
    let raw = RawPacket::new(PacketType::message(), &[0; 15]);
    assert!(matches!(MessagePacket::from_raw(raw), Err(DecodeError::TruncatedFrame)));
}

#[test]
fn from_raw_tolerates_invalid_utf8() {
    let mut payload = vec![0u8; 16];
    payload.extend_from_slice(&[0xFF, 0xFE]);
    let raw = RawPacket::new(PacketType::message(), &payload);
    let m = MessagePacket::from_raw(raw).unwrap();
    assert_eq!(m.msg, "\u{FFFD}\u{FFFD}");
}

#[test]
fn framer_cuts_merged_frames() {
    let a = MessagePacket::new(1, "ping").as_raw().as_bytes();
    let b = MessagePacket::new(2, "update").as_raw().as_bytes();
    let mut merged = a.clone();
    merged.extend_from_slice(&b);

    let mut dec = FrameDecoder::new();
    dec.push(&merged);
    assert_eq!(dec.len(), 2);
    assert_eq!(dec.pop(), Some(a));
    assert_eq!(dec.pop(), Some(b));
    assert_eq!(dec.pop(), None);
}

#[test]
fn framer_reassembles_sliced_frame() {
    let frame = MessagePacket::new(7, "move 1 1 0").as_raw().as_bytes();
    let mut dec = FrameDecoder::new();
    dec.push(&frame[..5]);
    assert_eq!(dec.len(), 0);
    assert_eq!(dec.pop(), None);
    dec.push(&frame[5..]);
    assert_eq!(dec.len(), 1);
    assert_eq!(dec.pop(), Some(frame));
}

#[test]
fn framer_split_push_equals_single_push() {
    let mut stream = Vec::new();
    for i in 0..5u128 {
        stream.extend_from_slice(&MessagePacket::new(i, "update").as_raw().as_bytes());
    }
    stream.extend_from_slice(&[20, 0, 1]);  // an incomplete tail

    let mut one = FrameDecoder::new();
    one.push(&stream);
    let mut two = FrameDecoder::new();
    for chunk in stream.chunks(4) {
        two.push(chunk);
    }
    assert_eq!(one.len(), 5);
    assert_eq!(two.len(), 5);
    loop {
        let x = one.pop();
        let y = two.pop();
        assert_eq!(x, y);
        if x.is_none() {
            break;
        }
    }
}

#[test]
fn framer_clamps_corrupt_declared_size() {
    // A declared size smaller than the header is cut as a bare header;
    // the codec stage rejects it and the stream resynchronizes on the
    // next frame.
    let mut dec = FrameDecoder::new();
    let mut bytes = vec![2u8, 0, 1];
    bytes.extend_from_slice(&MessagePacket::new(5, "ping").as_raw().as_bytes());
    dec.push(&bytes);
    assert_eq!(dec.len(), 2);
    let bad = dec.pop().unwrap();
    assert!(RawPacket::from_bytes(&bad).is_err());
    let good = dec.pop().unwrap();
    let m = MessagePacket::from_raw(RawPacket::from_bytes(&good).unwrap()).unwrap();
    assert_eq!(m.time, 5);
    assert_eq!(m.msg, "ping");
}

#[test]
fn framer_clear_discards_everything() {
    let mut dec = FrameDecoder::new();
    dec.push(&MessagePacket::new(0, "x").as_raw().as_bytes());
    dec.push(&[9, 0]);
    assert!(!dec.is_empty());
    dec.clear();
    assert!(dec.is_empty());
    assert_eq!(dec.pop(), None);
}

#[test]
fn decimal_rendering() {
    assert_eq!(u64_to_dec(0), b"0".to_vec());
    assert_eq!(u64_to_dec(7), b"7".to_vec());
    assert_eq!(u64_to_dec(1234567890), b"1234567890".to_vec());
}

#[test]
fn decimal_parse_u32() {
    assert_eq!(parse_u32(b"0"), Some(0));
    assert_eq!(parse_u32(b"4294967295"), Some(u32::MAX));
    assert_eq!(parse_u32(b"4294967296"), None);
    assert_eq!(parse_u32(b""), None);
    assert_eq!(parse_u32(b"12a"), None);
    assert_eq!(parse_u32(b"-1"), None);
}

#[test]
fn decimal_parse_i32() {
    assert_eq!(parse_i32(b"0"), Some(0));
    assert_eq!(parse_i32(b"-1"), Some(-1));
    assert_eq!(parse_i32(b"+25"), Some(25));
    assert_eq!(parse_i32(b"2147483647"), Some(i32::MAX));
    assert_eq!(parse_i32(b"-2147483648"), Some(i32::MIN));
    assert_eq!(parse_i32(b"2147483648"), None);
    assert_eq!(parse_i32(b"-2147483649"), None);
    assert_eq!(parse_i32(b"-"), None);
    assert_eq!(parse_i32(b"1 2"), None);
}
