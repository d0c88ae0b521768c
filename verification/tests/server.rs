use mtcp_rs::dial::{DialStep, DIAL_PAUSE_MILLIS};
use mtcp_rs::server::{Joining, ServerState};
use mtcp_rs::{MSocket, MtcpError};

fn hosts(names: &[&str]) -> Vec<String> {
    names.iter().map(|name| name.to_string()).collect()
}

#[test]
fn connection_ids_count_up_from_one() {
    let mut server: ServerState<u32> = ServerState::default();
    assert_eq!(server.allocate_cid(), 1);
    assert_eq!(server.allocate_cid(), 2);
    assert_eq!(server.allocate_cid(), 3);
}

#[test]
fn names_in_use_are_not_handed_out() {
    let mut server: ServerState<u32> = ServerState::default();
    server.join(1, 10);
    server.join(3, 30);
    assert_eq!(server.allocate_cid(), 2);
    assert_eq!(server.allocate_cid(), 4);
}

#[test]
fn connection_ids_come_round_below_the_limit() {
    let mut server: ServerState<u32> = ServerState::default();
    for expected in 1..65_000u16 {
        assert_eq!(server.allocate_cid(), expected);
    }
    server.join(1, 0);
    assert_eq!(server.allocate_cid(), 2);
}

#[test]
fn a_full_server_has_no_id_left() {
    let mut server: ServerState<()> = ServerState::default();
    server.join(0, ());
    server.join(65_000, ());
    for mid in 1..65_000u16 {
        assert!(server.has_free_cid());
        server.join(mid, ());
    }
    assert!(!server.has_free_cid());
    server.socket_closed(40_000);
    assert!(server.has_free_cid());
    assert_eq!(server.allocate_cid(), 40_000);
}

#[test]
fn later_logins_join_the_socket() {
    let mut server: ServerState<u32> = ServerState::default();
    assert_eq!(server.join(9, 1), Joining { mid: 9, created: true });
    assert_eq!(server.join(9, 2), Joining { mid: 9, created: false });
    assert_eq!(server.get(9), Some(&1));
    assert_eq!(server.get(8), None);
}

#[test]
fn a_socket_is_taken_back_only_by_its_maker() {
    let mut server: ServerState<u32> = ServerState::default();
    let first = server.join(9, 1);
    let second = server.join(9, 2);
    server.attach_failed(second);
    assert_eq!(server.get(9), Some(&1));
    server.attach_failed(first);
    assert_eq!(server.get(9), None);
}

#[test]
fn connecting_needs_a_host() {
    let error = MSocket::connect(&[], 1, 3).err();
    assert_eq!(error, Some(MtcpError::NoUpstreamHost));
}

#[test]
fn several_hosts_are_dialled_once_each() {
    let (_, mut plan) = MSocket::connect(&hosts(&["a", "b", "c"]), 80, 10).unwrap();
    assert_eq!(plan.next(), Some((0, 80)));
    assert_eq!(plan.dialed(true), DialStep::Pause(DIAL_PAUSE_MILLIS));
    assert_eq!(plan.next(), Some((1, 80)));
    assert_eq!(plan.dialed(false), DialStep::Next);
    assert_eq!(plan.next(), Some((2, 80)));
    assert_eq!(plan.dialed(true), DialStep::Next);
    assert_eq!(plan.next(), None);
}

#[test]
fn a_single_host_is_dialled_as_often_as_asked() {
    let (socket, mut plan) = MSocket::connect(&hosts(&["a"]), 80, 2).unwrap();
    assert_eq!(socket.mid(), None);
    assert_eq!(plan.next(), Some((0, 80)));
    assert_eq!(plan.dialed(true), DialStep::Pause(50));
    assert_eq!(plan.next(), Some((0, 80)));
    assert_eq!(plan.dialed(true), DialStep::Next);
    assert_eq!(plan.next(), None);
}

#[test]
fn there_is_at_least_one_attempt() {
    let (_, mut plan) = MSocket::connect(&hosts(&["a"]), 80, 0).unwrap();
    assert_eq!(plan.next(), Some((0, 80)));
    assert_eq!(plan.dialed(true), DialStep::Next);
    assert_eq!(plan.next(), None);
}

#[test]
fn the_first_attempt_has_to_succeed() {
    let (_, mut plan) = MSocket::connect(&hosts(&["a", "b"]), 80, 1).unwrap();
    assert_eq!(plan.dialed(false), DialStep::Abort);
}

#[test]
fn a_socket_without_connections_did_not_connect() {
    let mut socket = MSocket::new(None);
    assert_eq!(socket.check_connected(), Err(MtcpError::NoSubConnection));
    socket.attach_stream(1);
    assert_eq!(socket.check_connected(), Ok(()));
}
