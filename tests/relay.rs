use tinyportmapper::connection::{TcpConnection, TcpEndpoint};
use tinyportmapper::fd_manager::Fd64;
use tinyportmapper::manager::TcpConnectionManager;
use tinyportmapper::tcp::{RecvOutcome, SendOutcome, Side, TcpAction};

#[test]
fn endpoint_is_a_fifo() {
    let mut e = TcpEndpoint::new(Fd64(1), 8);
    assert_eq!(e.fill(b"HELLO"), 5);
    assert_eq!(e.read_slice(), b"HELLO".to_vec());
    e.consume(2);
    assert_eq!(e.read_slice(), b"LLO".to_vec());
    assert_eq!(e.fill(b"WORLD"), 3);
    assert_eq!(e.read_slice(), b"LLOWOR".to_vec());
    assert_eq!(e.available_space(), 0);
    e.consume(6);
    assert_eq!(e.pending_len(), 0);
    assert_eq!(e.write_pos(), 0);
    assert_eq!(e.fill(b"abcdefghij"), 8);
    assert_eq!(e.read_slice(), b"abcdefgh".to_vec());
    e.clear();
    assert_eq!(e.pending_len(), 0);
    assert_eq!(e.buf_size(), 8);
}

#[test]
fn relayed_stream_keeps_order() {
    let mut e = TcpEndpoint::new(Fd64(1), 4);
    let input: Vec<u8> = (0u8..=200).collect();
    let mut delivered: Vec<u8> = Vec::new();
    let mut pos = 0;
    let mut step = 0usize;
    while pos < input.len() || e.pending_len() > 0 {
        if pos < input.len() {
            let end = usize::min(pos + 3, input.len());
            pos += e.fill(&input[pos..end]);
        }
        let pending = e.read_slice();
        let n = 1 + step % 3;
        let n = usize::min(n, pending.len());
        delivered.extend_from_slice(&pending[..n]);
        e.consume(n);
        step += 1;
    }
    assert_eq!(delivered, input);
}

#[test]
fn connection_timestamps() {
    let mut c = TcpConnection::new(Fd64(1), Fd64(2), "x".to_string(), 100, 16, true);
    assert_eq!(c.idle_duration_at(160), 60);
    assert_eq!(c.idle_duration_at(50), 0);
    c.update_active_at(200);
    assert_eq!(c.last_active_time, 200);
    assert!(c.close_pipes().is_empty());
}

fn table() -> TcpConnectionManager {
    let mut m = TcpConnectionManager::new(360_000, 30, 1, false);
    m.new_connection(Fd64(1), Fd64(2), "127.0.0.1:5555".to_string(), 0, 8, true);
    m
}

#[test]
fn connect_phase() {
    let mut m = table();
    assert!(matches!(m.relay_readable(&Fd64(1)), TcpAction::Idle));
    assert!(matches!(m.relay_readable(&Fd64(2)), TcpAction::CheckConnect));
    assert!(matches!(m.relay_writable(&Fd64(2)), TcpAction::CheckConnect));
    assert!(matches!(m.relay_connect_result(&Fd64(2), 111), TcpAction::Close));
    assert!(matches!(m.relay_connect_result(&Fd64(2), 0), TcpAction::Connected));
    assert!(!m.get_connection(&Fd64(1)).unwrap().remote_connecting);
    assert!(matches!(m.relay_readable(&Fd64(9)), TcpAction::Idle));
}

#[test]
fn echo_through_the_relay() {
    let mut m = table();
    m.relay_connect_result(&Fd64(2), 0);
    match m.relay_readable(&Fd64(1)) {
        TcpAction::Recv { side: Side::Local, max } => assert_eq!(max, 8),
        _ => panic!("expected a receive"),
    }
    match m.relay_received(&Fd64(1), RecvOutcome::Data(b"HELLO".to_vec())) {
        TcpAction::Send { from: Side::Local, bytes } => assert_eq!(bytes, b"HELLO".to_vec()),
        _ => panic!("expected a send"),
    }
    match m.relay_sent(&Fd64(1), SendOutcome::Sent(2), false) {
        TcpAction::Send { from: Side::Local, bytes } => assert_eq!(bytes, b"LLO".to_vec()),
        _ => panic!("expected the rest"),
    }
    match m.relay_sent(&Fd64(1), SendOutcome::WouldBlock, false) {
        TcpAction::Watch { side: Side::Remote, writable: true } => {},
        _ => panic!("expected a writable watch on the peer"),
    }
    match m.relay_writable(&Fd64(2)) {
        TcpAction::Send { from: Side::Local, bytes } => assert_eq!(bytes, b"LLO".to_vec()),
        _ => panic!("expected a flush"),
    }
    match m.relay_sent(&Fd64(1), SendOutcome::Sent(3), true) {
        TcpAction::Watch { side: Side::Remote, writable: false } => {},
        _ => panic!("expected readability only"),
    }
    match m.relay_readable(&Fd64(2)) {
        TcpAction::Recv { side: Side::Remote, max: 8 } => {},
        _ => panic!("expected a receive on the remote side"),
    }
    match m.relay_received(&Fd64(2), RecvOutcome::Data(b"HELLO".to_vec())) {
        TcpAction::Send { from: Side::Remote, bytes } => assert_eq!(bytes, b"HELLO".to_vec()),
        _ => panic!("expected the echo"),
    }
    match m.relay_sent(&Fd64(2), SendOutcome::Sent(5), false) {
        TcpAction::Recv { side: Side::Remote, max: 8 } => {},
        _ => panic!("expected another read"),
    }
    assert!(matches!(m.relay_received(&Fd64(2), RecvOutcome::WouldBlock), TcpAction::Idle));
    assert!(matches!(m.relay_received(&Fd64(1), RecvOutcome::Eof), TcpAction::Close));
    assert!(matches!(m.relay_received(&Fd64(1), RecvOutcome::Failed), TcpAction::Close));
    assert!(matches!(m.relay_received(&Fd64(1), RecvOutcome::Data(Vec::new())), TcpAction::Close));
    assert!(matches!(m.relay_sent(&Fd64(1), SendOutcome::Sent(0), false), TcpAction::Close));
    assert!(matches!(m.relay_sent(&Fd64(1), SendOutcome::Failed, false), TcpAction::Close));
}

#[test]
fn backpressure_holds_the_reader() {
    let mut m = table();
    m.relay_connect_result(&Fd64(2), 0);
    m.relay_received(&Fd64(1), RecvOutcome::Data(b"12345678".to_vec()));
    m.relay_sent(&Fd64(1), SendOutcome::WouldBlock, false);
    // pending bytes go out first: no further read on the local side
    match m.relay_readable(&Fd64(1)) {
        TcpAction::Send { from: Side::Local, bytes } => assert_eq!(bytes.len(), 8),
        _ => panic!("expected the held bytes to be sent first"),
    }
    match m.relay_received(&Fd64(1), RecvOutcome::WouldBlock) {
        TcpAction::Watch { side: Side::Remote, writable: true } => {},
        _ => panic!("expected the peer watched"),
    }
}
