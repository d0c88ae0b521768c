use mtcp_rs::connection::{
    Closing, MSocket, ReadEvent, ReadStep, ReaderStep, WriteMsg, WriterAction, WriterEvent,
};
use mtcp_rs::protocol::{encode_frame, HEADER_LEN, MAX_FRAME_PAYLOAD};
use mtcp_rs::{FrameDecoder, MtcpError};

fn read_all(socket: &mut MSocket, step_len: usize) -> (Vec<u8>, ReadStep) {
    let mut out = Vec::new();
    let mut buf = vec![0u8; step_len];
    loop {
        match socket.read(&mut buf) {
            ReadStep::Data(n) => out.extend_from_slice(&buf[..n]),
            step => return (out, step),
        }
    }
}

fn cut_into_frames(socket: &mut MSocket, bytes: &[u8]) -> Vec<Vec<u8>> {
    let mut frames = Vec::new();
    let mut rest = bytes;
    while let Some((frame, carried)) = socket.write_buffer(rest).unwrap() {
        frames.push(frame);
        rest = &rest[carried..];
    }
    frames
}

#[test]
fn a_fresh_socket_is_open_and_unconnected() {
    let socket = MSocket::from_server(7);
    assert_eq!(socket.mid(), Some(7));
    assert!(!socket.is_closed());
    assert!(!socket.wait_closed());
    assert_eq!(socket.connection_count(), 0);
    assert_eq!(MSocket::new(None).mid(), None);
}

#[test]
fn the_first_connection_id_names_the_socket() {
    let mut socket = MSocket::new(None);
    assert_eq!(socket.connect_sub(5), [0, 105, 0, 5]);
    assert_eq!(socket.mid(), Some(5));
    assert_eq!(socket.connect_sub(9), [0, 109, 0, 5]);
    assert_eq!(socket.mid(), Some(5));
}

#[test]
fn packets_are_read_in_the_order_of_their_ids() {
    let mut socket = MSocket::from_server(1);
    socket.attach_stream(1);
    socket.deliver_frame(2, b"ghi".to_vec());
    assert_eq!(socket.read(&mut [0u8; 8]), ReadStep::Wait);
    socket.deliver_frame(0, b"abc".to_vec());
    socket.deliver_frame(1, b"def".to_vec());
    let (bytes, step) = read_all(&mut socket, 2);
    assert_eq!(bytes, b"abcdefghi");
    assert_eq!(step, ReadStep::Wait);
}

#[test]
fn a_read_stops_at_the_end_of_a_packet() {
    let mut socket = MSocket::from_server(1);
    socket.deliver_frame(0, b"abc".to_vec());
    socket.deliver_frame(1, b"de".to_vec());
    let mut buf = [0xeeu8; 8];
    assert_eq!(socket.read(&mut buf), ReadStep::Data(3));
    assert_eq!(&buf, &[b'a', b'b', b'c', 0xee, 0xee, 0xee, 0xee, 0xee]);
    assert_eq!(socket.read(&mut buf[..1]), ReadStep::Data(1));
    assert_eq!(buf[0], b'd');
    assert_eq!(socket.read(&mut buf), ReadStep::Data(1));
    assert_eq!(buf[0], b'e');
}

#[test]
fn reading_into_nothing_gives_nothing() {
    let mut socket = MSocket::from_server(1);
    assert_eq!(socket.read(&mut []), ReadStep::Data(0));
    assert!(!socket.is_closed());
    socket.deliver_frame(0, b"abc".to_vec());
    assert_eq!(socket.read(&mut []), ReadStep::Data(0));
    assert_eq!(socket.read(&mut [0u8; 3]), ReadStep::Data(3));
}

#[test]
fn the_first_of_two_packets_with_one_id_is_kept() {
    let mut socket = MSocket::from_server(1);
    socket.deliver_frame(0, b"first".to_vec());
    socket.deliver_frame(0, b"second".to_vec());
    assert_eq!(read_all(&mut socket, 100).0, b"first");
}

#[test]
fn an_empty_packet_is_passed_over() {
    let mut socket = MSocket::from_server(1);
    socket.deliver_frame(0, Vec::new());
    socket.deliver_frame(1, b"x".to_vec());
    assert_eq!(read_all(&mut socket, 100).0, b"x");
}

#[test]
fn a_socket_without_connections_reads_as_ended() {
    let mut socket = MSocket::from_server(1);
    assert_eq!(socket.read(&mut [0u8; 1]), ReadStep::Eof);
    assert!(socket.is_closed());
    socket.attach_stream(3);
    assert!(!socket.is_closed());
}

#[test]
fn written_bytes_arrive_over_connections_in_any_order() {
    let mut sender = MSocket::new(None);
    sender.attach_stream(1);
    sender.attach_stream(2);
    let bytes: Vec<u8> = (0..200_000u32).map(|i| (i % 251) as u8).collect();
    let frames = cut_into_frames(&mut sender, &bytes);
    assert_eq!(frames.len(), 4);
    assert_eq!(frames[0].len(), HEADER_LEN + MAX_FRAME_PAYLOAD);
    assert_eq!(&frames[3][2..4], &[0, 3]);

    let mut receiver = MSocket::from_server(1);
    let left = receiver.attach_stream(1);
    let right = receiver.attach_stream(2);
    let mut left_decoder = FrameDecoder::new();
    let mut right_decoder = FrameDecoder::new();
    for at in [3, 1] {
        for piece in frames[at].chunks(1000) {
            let step = receiver.reader_loop(right, &mut right_decoder, ReadEvent::Bytes(piece));
            assert_eq!(step, ReaderStep::Continue);
        }
    }
    assert_eq!(receiver.read(&mut [0u8; 16]), ReadStep::Wait);
    for at in [2, 0] {
        receiver.reader_loop(left, &mut left_decoder, ReadEvent::Bytes(&frames[at]));
    }
    let (got, step) = read_all(&mut receiver, 4096);
    assert_eq!(got, bytes);
    assert_eq!(step, ReadStep::Wait);
}

#[test]
fn packet_ids_wrap_on_both_sides() {
    let mut sender = MSocket::new(None);
    let mut receiver = MSocket::from_server(1);
    let id = receiver.attach_stream(1);
    let mut decoder = FrameDecoder::new();
    let mut buf = [0u8; 4];
    for round in 0..70_000u32 {
        let (frame, carried) = sender.write_buffer(&[round as u8]).unwrap().unwrap();
        assert_eq!(carried, 1);
        receiver.reader_loop(id, &mut decoder, ReadEvent::Bytes(&frame));
        assert_eq!(receiver.read(&mut buf), ReadStep::Data(1));
        assert_eq!(buf[0], round as u8);
    }
}

#[test]
fn frames_go_where_the_fewest_bytes_wait() {
    let mut socket = MSocket::new(None);
    let a = socket.attach_stream(1);
    let b = socket.attach_stream(2);
    let c = socket.attach_stream(3);
    assert_eq!(socket.write_frame(100), Ok(a));
    assert_eq!(socket.write_frame(50), Ok(b));
    assert_eq!(socket.write_frame(70), Ok(c));
    assert_eq!(socket.write_frame(10), Ok(b));
    assert_eq!(socket.write_frame(10), Ok(b));
    assert_eq!(socket.write_frame(10), Ok(b));
    let action = socket.writer_loop(a, WriterEvent::Written { frame_len: 100, ok: true });
    assert!(matches!(action, WriterAction::Receive));
    assert_eq!(socket.write_frame(1), Ok(a));
    assert_eq!(socket.write_frame(1), Ok(a));
}

#[test]
fn a_frame_that_cannot_be_handed_over_goes_elsewhere() {
    let mut socket = MSocket::new(None);
    let a = socket.attach_stream(1);
    let b = socket.attach_stream(2);
    assert_eq!(socket.write_frame(10), Ok(a));
    assert_eq!(socket.send_failed(a, 10), Closing::Remaining);
    assert_eq!(socket.write_frame(10), Ok(b));
    assert_eq!(socket.send_failed(b, 10), Closing::Last);
    assert!(socket.is_closed());
    assert_eq!(socket.write_frame(10), Err(MtcpError::NoActiveConnection));
}

#[test]
fn nothing_is_written_after_the_write_side_is_shut_down() {
    let mut socket = MSocket::new(None);
    let a = socket.attach_stream(1);
    let b = socket.attach_stream(2);
    assert_eq!(socket.shutdown_write(), vec![a, b]);
    assert_eq!(socket.shutdown_write(), Vec::<u64>::new());
    assert_eq!(socket.write_buffer(b"x"), Err(MtcpError::WriteClosed));
    assert_eq!(socket.write_buffer(b""), Ok(None));
    assert_eq!(socket.write_frame(5), Err(MtcpError::WriteClosed));
    assert_eq!(socket.close(), vec![a, b]);
}

#[test]
fn closing_twice_is_closing_once() {
    let mut socket = MSocket::from_server(1);
    let a = socket.attach_stream(1);
    let b = socket.attach_stream(2);
    assert_eq!(socket.mark_connection_closed(a), Closing::Remaining);
    assert_eq!(socket.mark_connection_closed(a), Closing::Already);
    assert_eq!(socket.mark_connection_closed(99), Closing::Already);
    assert!(!socket.is_closed());
    assert_eq!(socket.connection_count(), 1);
    assert_eq!(socket.mark_connection_closed(b), Closing::Last);
    assert!(socket.wait_closed());
    assert_eq!(socket.connection_count(), 0);
}

#[test]
fn a_retired_connection_is_passed_over() {
    let mut socket = MSocket::from_server(1);
    let a = socket.attach_stream(1);
    let b = socket.attach_stream(2);
    assert!(socket.retire(a));
    assert!(!socket.retire(a));
    assert_eq!(socket.connection_count(), 1);
    assert_eq!(socket.write_frame(5), Ok(b));
    assert_eq!(socket.close(), vec![b]);
    assert!(socket.retire(b));
    assert_eq!(socket.read(&mut [0u8; 1]), ReadStep::Eof);
    assert!(socket.is_closed());
}

#[test]
fn data_is_read_before_the_end() {
    let mut socket = MSocket::from_server(1);
    let id = socket.attach_stream(1);
    let mut decoder = FrameDecoder::new();
    socket.reader_loop(id, &mut decoder, ReadEvent::Bytes(&encode_frame(0, b"bye")));
    assert_eq!(
        socket.reader_loop(id, &mut decoder, ReadEvent::Interrupted),
        ReaderStep::Continue
    );
    assert_eq!(
        socket.reader_loop(id, &mut decoder, ReadEvent::Bytes(&[])),
        ReaderStep::Stop(Closing::Last)
    );
    let (bytes, step) = read_all(&mut socket, 10);
    assert_eq!(bytes, b"bye");
    assert_eq!(step, ReadStep::Eof);
}

#[test]
fn a_frame_that_is_cut_off_fails_the_reader() {
    for event in [ReadEvent::Bytes(&[]), ReadEvent::Failed] {
        let mut socket = MSocket::from_server(1);
        let id = socket.attach_stream(1);
        let mut decoder = FrameDecoder::new();
        let mut bytes = encode_frame(0, b"abc");
        bytes.extend_from_slice(&encode_frame(1, b"def")[..5]);
        socket.reader_loop(id, &mut decoder, ReadEvent::Bytes(&bytes));
        assert_eq!(
            socket.reader_loop(id, &mut decoder, event),
            ReaderStep::Stop(Closing::Last)
        );
        let (bytes, step) = read_all(&mut socket, 10);
        assert_eq!(bytes, b"abc");
        assert_eq!(step, ReadStep::Failed(MtcpError::TruncatedFrame));
    }
}

#[test]
fn a_socket_that_is_given_up_ends_quietly() {
    let mut socket = MSocket::from_server(1);
    let id = socket.attach_stream(1);
    let mut decoder = FrameDecoder::new();
    socket.reader_loop(id, &mut decoder, ReadEvent::Bytes(&[0, 1, 0]));
    assert_eq!(socket.close(), vec![id]);
    socket.reader_loop(id, &mut decoder, ReadEvent::Bytes(&[]));
    assert_eq!(socket.read(&mut [0u8; 1]), ReadStep::Eof);
}

#[test]
fn the_writer_does_what_it_is_told() {
    let mut socket = MSocket::new(None);
    let id = socket.attach_stream(1);
    let action = socket.writer_loop(id, WriterEvent::Message(WriteMsg::Frame(vec![1, 2, 3])));
    assert!(matches!(action, WriterAction::Write(frame) if frame == vec![1, 2, 3]));
    let action = socket.writer_loop(id, WriterEvent::Message(WriteMsg::Shutdown));
    assert!(matches!(action, WriterAction::ShutdownWrite));
    let action = socket.writer_loop(id, WriterEvent::Message(WriteMsg::Close));
    assert!(matches!(action, WriterAction::ShutdownBoth));
    assert_eq!(socket.connection_count(), 1);
    let action = socket.writer_loop(id, WriterEvent::Ended);
    assert!(matches!(action, WriterAction::Stop(Closing::Last)));
    let action = socket.writer_loop(id, WriterEvent::Ended);
    assert!(matches!(action, WriterAction::Stop(Closing::Already)));
}

#[test]
fn a_write_that_fails_closes_the_connection() {
    let mut socket = MSocket::new(None);
    let a = socket.attach_stream(1);
    socket.attach_stream(2);
    let action = socket.writer_loop(a, WriterEvent::Written { frame_len: 3, ok: false });
    assert!(matches!(action, WriterAction::Stop(Closing::Remaining)));
    assert_eq!(socket.connection_count(), 1);
}
