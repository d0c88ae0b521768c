use mtcp_rs::protocol::encode_frame;
use mtcp_rs::{FrameDecoder, Packet};

fn plain(packets: Vec<Packet>) -> Vec<(u16, Vec<u8>)> {
    packets
        .into_iter()
        .map(|packet| (packet.pid, packet.payload))
        .collect()
}

fn wire(packets: &[(u16, &[u8])]) -> Vec<u8> {
    let mut bytes = Vec::new();
    for (pid, payload) in packets {
        bytes.extend_from_slice(&encode_frame(*pid, payload));
    }
    bytes
}

#[test]
fn framed_packets_come_out_in_order() {
    let mut decoder = FrameDecoder::new();
    let bytes = wire(&[(3, b"abc"), (1, b"x"), (65_535, b"last")]);
    let packets = plain(decoder.feed(&bytes));
    assert_eq!(
        packets,
        vec![
            (3, b"abc".to_vec()),
            (1, b"x".to_vec()),
            (65_535, b"last".to_vec())
        ]
    );
    assert!(!decoder.is_inside_frame());
}

#[test]
fn pieces_give_what_the_whole_gives() {
    let bytes = wire(&[(0, b"hello"), (1, b"world"), (2, b"!")]);
    let mut at_once = FrameDecoder::new();
    let whole = plain(at_once.feed(&bytes));

    for cut in 0..=bytes.len() {
        let mut decoder = FrameDecoder::new();
        let mut packets = plain(decoder.feed(&bytes[..cut]));
        packets.extend(plain(decoder.feed(&bytes[cut..])));
        assert_eq!(packets, whole);
        assert!(!decoder.is_inside_frame());
    }

    let mut one_by_one = FrameDecoder::new();
    let mut packets = Vec::new();
    for byte in &bytes {
        packets.extend(plain(one_by_one.feed(&[*byte])));
    }
    assert_eq!(packets, whole);
}

#[test]
fn a_partial_frame_is_kept_back() {
    let mut decoder = FrameDecoder::new();
    assert!(decoder.feed(&[0, 1, 0]).is_empty());
    assert!(decoder.is_inside_frame());
    assert!(decoder.feed(&[9, 5]).is_empty());
    assert_eq!(plain(decoder.feed(&[6, 0])), vec![(9, vec![5, 6])]);
    assert!(decoder.is_inside_frame());
}
