use mtcp_rs::bridge::{
    BridgeError, BridgeStep, BridgeWait, ClientConfig, CopyReport, Direction, RemoteConfig,
};
use mtcp_rs::connection::{MSocket, ReadEvent, ReadStep};
use mtcp_rs::pool::{FillStep, PreconnectPool};
use mtcp_rs::{FrameDecoder, MtcpError};

/// The peer sends three bytes, less than a frame's header, and goes away.
#[test]
fn bridge_returns_when_mtcp_side_errors() {
    let mut socket = MSocket::from_server(7);
    let id = socket.attach_stream(1);
    let mut decoder = FrameDecoder::new();
    socket.reader_loop(id, &mut decoder, ReadEvent::Bytes(&[0, 1, 0]));
    socket.reader_loop(id, &mut decoder, ReadEvent::Bytes(&[]));

    let mut bridge: BridgeWait<MtcpError> = BridgeWait::new();
    let backward = match socket.read(&mut [0u8; 64]) {
        ReadStep::Failed(error) => CopyReport::Failed(error),
        _ => CopyReport::Done,
    };
    assert_eq!(bridge.report(backward), BridgeStep::AbortAndAwait);
    assert_eq!(bridge.report(CopyReport::Done), BridgeStep::Join);
    let result = bridge.finish(true, true);
    assert!(result.is_err(), "bridge should surface the mtcp failure");
}

#[test]
fn a_bridge_ends_well_when_both_copies_do() {
    let mut bridge: BridgeWait<u8> = BridgeWait::new();
    assert_eq!(bridge.report(CopyReport::Done), BridgeStep::Await);
    assert_eq!(bridge.report(CopyReport::Done), BridgeStep::Join);
    assert!(bridge.finish(true, true).is_ok());
}

#[test]
fn the_first_failure_is_the_bridge_s() {
    let mut bridge: BridgeWait<u8> = BridgeWait::new();
    assert_eq!(bridge.report(CopyReport::Failed(1)), BridgeStep::AbortAndAwait);
    assert_eq!(bridge.report(CopyReport::Failed(2)), BridgeStep::Join);
    assert!(matches!(bridge.finish(true, true), Err(BridgeError::Copy(1))));

    let mut bridge: BridgeWait<u8> = BridgeWait::new();
    assert_eq!(bridge.report(CopyReport::Done), BridgeStep::Await);
    assert_eq!(bridge.report(CopyReport::Failed(2)), BridgeStep::Join);
    assert!(matches!(bridge.finish(true, true), Err(BridgeError::Copy(2))));
}

#[test]
fn a_copy_that_is_gone_ends_the_wait() {
    let mut bridge: BridgeWait<u8> = BridgeWait::new();
    assert_eq!(bridge.report(CopyReport::Vanished), BridgeStep::GiveUp);
    let error: BridgeError<u8> = BridgeError::NoStatus;
    assert_eq!(
        error.message().unwrap(),
        "bridge copy threads exited before reporting their status"
    );
}

#[test]
fn a_copy_that_panicked_is_named() {
    let bridge = BridgeWait { error: Some(1u8), reports: 2 };
    let error = bridge.finish(false, false).unwrap_err();
    assert!(matches!(error, BridgeError::Panicked(Direction::TcpToMtcp)));
    assert_eq!(
        error.message().unwrap(),
        "bridge thread panicked while copying tcp -> mtcp"
    );
    let bridge = BridgeWait { error: Some(1u8), reports: 2 };
    let error = bridge.finish(true, false).unwrap_err();
    assert_eq!(
        error.message().unwrap(),
        "bridge thread panicked while copying mtcp -> tcp"
    );
    assert_eq!(BridgeError::Copy(1u8).message(), None);
}

#[test]
fn standard_client_settings() {
    let config = ClientConfig::default();
    assert_eq!(config.listen_host, "0.0.0.0");
    assert_eq!(config.listen_port, 5201);
    assert_eq!(config.upstream_hosts, vec!["8.8.8.8".to_string()]);
    assert_eq!(config.upstream_port, 15201);
    assert_eq!(config.pool_count, 3);
    assert_eq!(config.preconnect, 10);
    assert_eq!(config.listen_addr(), "0.0.0.0:5201");
    assert_eq!(config.upstream_label(), "8.8.8.8");
    assert_eq!(
        config.startup_line(),
        "启动成功:listen tcp:5201 -> mtcp:8.8.8.8:15201"
    );
}

#[test]
fn standard_remote_settings() {
    let config = RemoteConfig::default();
    assert_eq!(config.listen_host, "0.0.0.0");
    assert_eq!(config.listen_port, 15201);
    assert_eq!(config.upstream_host, "0.0.0.0");
    assert_eq!(config.upstream_port, 5201);
    assert_eq!(config.listen_addr(), "0.0.0.0:15201");
    assert_eq!(
        config.startup_line(),
        "启动成功:listen mtcp:15201 -> tcp:0.0.0.0:5201"
    );
}

#[test]
fn several_hosts_are_labelled_with_commas() {
    let mut config = ClientConfig::default();
    config.upstream_hosts = vec!["a".to_string(), "b".to_string(), "c".to_string()];
    assert_eq!(config.upstream_label(), "a,b,c");
    config.upstream_hosts.clear();
    assert_eq!(config.upstream_label(), "");
}

fn pool_of(preconnect: usize, sockets: &[u8]) -> PreconnectPool<u8> {
    let mut config = ClientConfig::default();
    config.preconnect = preconnect;
    let mut pool = PreconnectPool::new(config);
    for socket in sockets {
        assert_eq!(pool.dialed(Some(*socket)), FillStep::Check);
    }
    pool
}

#[test]
fn an_empty_pool_is_not_filled() {
    assert!(!pool_of(0, &[]).start());
    assert!(pool_of(1, &[]).start());
    assert_eq!(pool_of(7, &[]).config().preconnect, 7);
}

#[test]
fn closed_sockets_leave_the_pool() {
    let mut pool = pool_of(3, &[1, 2, 3, 4, 5]);
    let step = pool.fill_loop(&[true, false, true, true, false]);
    assert_eq!(step, FillStep::Connect);
    assert_eq!(pool.sockets(), &vec![2, 5]);
    pool.dialed(Some(6));
    assert_eq!(pool.fill_loop(&[false, false, false]), FillStep::Pause(250));
    assert_eq!(pool.sockets(), &vec![2, 5, 6]);
}

#[test]
fn a_failed_connect_is_tried_again_later() {
    let mut pool = pool_of(3, &[1]);
    assert_eq!(pool.dialed(None), FillStep::Pause(1000));
    assert_eq!(pool.sockets(), &vec![1]);
}

#[test]
fn the_latest_open_socket_is_taken() {
    let mut pool = pool_of(3, &[1, 2, 3, 4]);
    assert_eq!(pool.take(&[false, false, true, true]), Some(2));
    assert_eq!(pool.sockets(), &vec![1]);
    assert_eq!(pool.take(&[true]), None);
    assert!(pool.sockets().is_empty());
    assert_eq!(pool.take(&[]), None);
}
