use mtcp_rs::protocol::{
    decode_u16, encode_frame, encode_login, encode_u16, next_pid, parse_login, try_parse_frame,
    HEADER_LEN, MAX_FRAME_PAYLOAD,
};
use mtcp_rs::{ErrorKind, MtcpError};

#[test]
fn login_roundtrip_matches_node_protocol() {
    let bytes = encode_login(123, 456);
    assert_eq!(parse_login(bytes, 123).unwrap(), 456);
}

#[test]
fn frame_roundtrip_matches_node_protocol() {
    let payload = b"hello world";
    let frame = encode_frame(17, payload);
    let (frame_len, pid, payload_len) = try_parse_frame(&frame).unwrap();

    assert_eq!(frame_len, HEADER_LEN + payload.len());
    assert_eq!(pid, 17);
    assert_eq!(payload_len, payload.len());
    assert_eq!(&frame[HEADER_LEN..], payload);
}

#[test]
fn login_bytes_are_big_endian() {
    assert_eq!(encode_login(0x0100, 0x0203), [0x01, 0x64, 0x02, 0x03]);
    assert_eq!(encode_login(65_435, 65_535), [0xff, 0xff, 0xff, 0xff]);
}

#[test]
fn login_for_another_connection_is_refused() {
    let bytes = encode_login(123, 456);
    let error = parse_login(bytes, 124).unwrap_err();
    assert_eq!(error, MtcpError::InvalidLogin);
    assert_eq!(error.kind(), ErrorKind::InvalidData);
    assert_eq!(error.message(), "invalid mtcp login header");
}

#[test]
fn numbers_match_the_standard_encoding() {
    for value in 0..=u16::MAX {
        assert_eq!(encode_u16(value), value.to_be_bytes());
        assert_eq!(decode_u16(value.to_be_bytes()), value);
    }
}

#[test]
fn packet_ids_come_round() {
    assert_eq!(next_pid(0), 1);
    assert_eq!(next_pid(65_534), 65_535);
    assert_eq!(next_pid(65_535), 0);
}

#[test]
fn frame_bytes_are_exact() {
    assert_eq!(encode_frame(0x1234, &[9]), vec![0, 0, 0x12, 0x34, 9]);
    assert_eq!(encode_frame(1, &[7, 8]), vec![0, 1, 0, 1, 7, 8]);
}

#[test]
fn largest_frame_makes_the_round_trip() {
    let payload = vec![0xabu8; MAX_FRAME_PAYLOAD];
    let frame = encode_frame(65_535, &payload);
    assert_eq!(&frame[..HEADER_LEN], &[0xff, 0xff, 0xff, 0xff]);
    assert_eq!(
        try_parse_frame(&frame),
        Some((HEADER_LEN + MAX_FRAME_PAYLOAD, 65_535, MAX_FRAME_PAYLOAD))
    );
}

#[test]
fn incomplete_frames_are_not_found() {
    let frame = encode_frame(5, b"abc");
    for end in 0..frame.len() {
        assert_eq!(try_parse_frame(&frame[..end]), None);
    }
}

#[test]
fn bytes_after_a_frame_do_not_matter() {
    let mut bytes = encode_frame(5, b"abc");
    bytes.extend_from_slice(&[1, 2, 3, 4, 5]);
    assert_eq!(try_parse_frame(&bytes), Some((7, 5, 3)));
}

#[test]
fn every_error_has_its_kind_and_text() {
    let table = [
        (
            MtcpError::InvalidLogin,
            ErrorKind::InvalidData,
            "invalid mtcp login header",
        ),
        (
            MtcpError::NoUpstreamHost,
            ErrorKind::InvalidInput,
            "at least one upstream host is required",
        ),
        (
            MtcpError::NoSubConnection,
            ErrorKind::NotConnected,
            "failed to establish any mtcp sub-connections",
        ),
        (
            MtcpError::WriteClosed,
            ErrorKind::BrokenPipe,
            "msocket write side is closed",
        ),
        (
            MtcpError::NoActiveConnection,
            ErrorKind::NotConnected,
            "msocket has no active sub-connections",
        ),
        (
            MtcpError::TruncatedFrame,
            ErrorKind::UnexpectedEof,
            "mtcp sub-connection ended inside a frame",
        ),
    ];
    for (error, kind, message) in table {
        assert_eq!(error.kind(), kind);
        assert_eq!(error.message(), message);
    }
}
