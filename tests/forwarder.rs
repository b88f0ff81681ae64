use tinyportmapper::address::{Address, Ipv4Octets};
use tinyportmapper::event::{on_response_len, DatagramStep, EventTarget, ForwarderCore, ResponseStep, TokenManager};
use tinyportmapper::fd_manager::Fd64;
use tinyportmapper::tcp::{RecvOutcome, SendOutcome, Side, TcpAction};

fn forwarder(max: usize) -> ForwarderCore {
    ForwarderCore::new(max, 400, 1000, 180_000, 1, 1, false)
}

#[test]
fn gauges_follow_tables() {
    let mut c = forwarder(10);
    let f1 = c.open_tcp_flow(10, 11, "a".to_string(), 0, 64, false).unwrap();
    let _f2 = c.open_tcp_flow(12, 13, "b".to_string(), 0, 64, true).unwrap();
    assert_eq!(c.stats().tcp_connections, 2);
    assert_eq!(c.tcp().len(), 2);
    let closed = c.close_tcp_flow(&f1.remote).unwrap();
    assert_eq!(closed.local_raw, Some(10));
    assert_eq!(closed.remote_raw, Some(11));
    assert_eq!(closed.local_token, Some(f1.local_token));
    assert_eq!(c.stats().tcp_connections, 1);
    assert_eq!(c.tcp().len(), 1);
    assert!(c.close_tcp_flow(&f1.local).is_none());
    assert!(!c.registry().exist(f1.local));

    let client = Address::from_ipv4(Ipv4Octets(127, 0, 0, 1), 40000);
    let (h, _t) = c.open_udp_session(client, 20, 3, "c".to_string(), 0).unwrap();
    assert!(c.open_udp_session(client, 21, 3, "c".to_string(), 0).is_none());
    assert_eq!(c.stats().udp_sessions, 1);
    assert_eq!(c.reply_route(&h), Some((3, client)));
    let closed = c.close_udp_session(&client).unwrap();
    assert_eq!(closed.remote_raw, Some(20));
    assert_eq!(c.stats().udp_sessions, 0);
    assert_eq!(c.udp().len(), 0);
}

#[test]
fn idle_flows_are_swept() {
    let mut c = forwarder(100);
    for i in 0..10 {
        c.open_tcp_flow(100 + 2 * i, 101 + 2 * i, format!("f{}", i), 0, 16, false).unwrap();
    }
    assert!(c.tick_due(2000));
    assert!(!c.tick_due(2100));
    let (tcp, udp) = c.sweep_at(2000);
    assert_eq!(tcp.len(), 10);
    assert!(udp.is_empty());
    assert_eq!(c.stats().tcp_connections, 0);
    assert_eq!(c.tcp().len(), 0);
    for f in &tcp {
        assert!(f.local_raw.is_some() && f.remote_raw.is_some());
    }
}

#[test]
fn connection_limit() {
    let mut c = forwarder(2);
    assert!(c.tcp_accept_allowed());
    c.open_tcp_flow(1, 2, "a".to_string(), 0, 16, false).unwrap();
    let f = c.open_tcp_flow(3, 4, "b".to_string(), 0, 16, false).unwrap();
    assert!(!c.tcp_accept_allowed());
    c.close_tcp_flow(&f.local);
    assert!(c.tcp_accept_allowed());
}

#[test]
fn events_are_classified() {
    let mut c = forwarder(10);
    let tl = c.register_listener(50, 0, true).unwrap();
    let ul = c.register_listener(51, 0, false).unwrap();
    assert!(matches!(c.classify(tl, true, false), EventTarget::TcpAccept));
    assert!(matches!(c.classify(ul, true, false), EventTarget::UdpDatagram));
    assert!(matches!(c.classify(ul, false, true), EventTarget::Ignore));
    let f = c.open_tcp_flow(60, 61, "a".to_string(), 0, 16, false).unwrap();
    match c.classify(f.remote_token, true, true) {
        EventTarget::TcpFlow { fd64, readable: true, writable: true } => assert_eq!(fd64, f.remote),
        _ => panic!("expected a TCP flow event"),
    }
    let client = Address::from_ipv4(Ipv4Octets(1, 2, 3, 4), 5);
    let (h, t) = c.open_udp_session(client, 70, 51, "u".to_string(), 0).unwrap();
    match c.classify(t, true, false) {
        EventTarget::UdpResponse(x) => assert_eq!(x, h),
        _ => panic!("expected a UDP response"),
    }
    c.close_tcp_flow(&f.local);
    assert!(matches!(c.classify(f.remote_token, true, false), EventTarget::Ignore));
    assert!(matches!(c.classify(9999, true, false), EventTarget::Ignore));
}

#[test]
fn datagram_decisions() {
    let mut c = forwarder(1);
    let a = Address::from_ipv4(Ipv4Octets(1, 2, 3, 4), 5);
    let b = Address::from_ipv4(Ipv4Octets(1, 2, 3, 4), 6);
    assert!(matches!(c.on_datagram(&a, 65535), DatagramStep::DropOversized));
    assert!(matches!(c.on_datagram(&a, 4), DatagramStep::Open));
    let (h, _) = c.open_udp_session(a, 9, 8, "a".to_string(), 0).unwrap();
    match c.on_datagram(&a, 65534) {
        DatagramStep::Forward(x) => assert_eq!(x, h),
        _ => panic!("expected forwarding"),
    }
    assert!(matches!(c.on_datagram(&b, 4), DatagramStep::Refuse));
    assert!(matches!(on_response_len(-1), ResponseStep::Failed));
    assert!(matches!(on_response_len(0), ResponseStep::Empty));
    assert!(matches!(on_response_len(65537), ResponseStep::DropOversized));
    assert!(matches!(on_response_len(65536), ResponseStep::Reply));
}

#[test]
fn tokens_are_a_bijection() {
    let mut t = TokenManager::new(1);
    let a = t.generate_token(Fd64(10));
    let b = t.generate_token(Fd64(11));
    assert_ne!(a, b);
    assert_eq!(t.get_fd64(a), Some(Fd64(10)));
    assert_eq!(t.get_token(&Fd64(11)), Some(b));
    assert_eq!(t.remove(&Fd64(10)), Some(a));
    assert_eq!(t.get_fd64(a), None);
    let c = t.generate_token(Fd64(11));
    assert_eq!(t.get_fd64(b), None);
    assert_eq!(t.get_fd64(c), Some(Fd64(11)));
}

#[test]
fn relay_through_the_core() {
    let mut c = forwarder(10);
    let f = c.open_tcp_flow(30, 31, "a".to_string(), 0, 4, false).unwrap();
    assert!(matches!(c.relay_readable(&f.local), TcpAction::Recv { side: Side::Local, max: 4 }));
    match c.relay_received(&f.local, RecvOutcome::Data(b"ping".to_vec())) {
        TcpAction::Send { from: Side::Local, bytes } => assert_eq!(bytes, b"ping".to_vec()),
        _ => panic!("expected a send"),
    }
    c.record_tcp_received(4);
    assert!(matches!(c.relay_sent(&f.local, SendOutcome::Sent(4), false), TcpAction::Recv { .. }));
    c.record_tcp_sent(4);
    assert_eq!(c.stats().tcp_bytes_received, 4);
    assert_eq!(c.stats().tcp_bytes_sent, 4);
    c.touch_tcp(&f.remote, 50);
    assert_eq!(c.tcp().get_connection(&f.local).unwrap().last_active_time, 50);
    assert!(matches!(c.relay_connect_result(&Fd64(999), 0), TcpAction::Idle));
}

#[test]
fn shutdown_closes_everything() {
    let mut c = forwarder(10);
    c.open_tcp_flow(1, 2, "a".to_string(), 0, 8, false).unwrap();
    c.open_tcp_flow(3, 4, "b".to_string(), 0, 8, false).unwrap();
    let client = Address::from_ipv4(Ipv4Octets(9, 9, 9, 9), 9);
    c.open_udp_session(client, 5, 6, "c".to_string(), 0).unwrap();
    let (tcp, udp) = c.close_all();
    assert_eq!(tcp.len(), 2);
    assert_eq!(udp.len(), 1);
    assert_eq!(c.tcp().len(), 0);
    assert_eq!(c.udp().len(), 0);
    assert_eq!(c.stats().tcp_connections, 0);
    assert_eq!(c.stats().udp_sessions, 0);
}

#[test]
fn closing_drops_tokens_and_handles() {
    let mut c = forwarder(10);
    let f = c.open_tcp_flow(40, 41, "a".to_string(), 0, 8, false).unwrap();
    assert_eq!(c.recv_room(&f.local), 8);
    assert_eq!(c.recv_room(&Fd64(9999)), 0);
    let closed = c.close_tcp_flow(&f.local).unwrap();
    assert_eq!(closed.remote_token, Some(f.remote_token));
    assert_eq!(c.tokens().get_token(&f.local), None);
    assert_eq!(c.tokens().get_token(&f.remote), None);
    assert!(!c.registry().exist(f.remote));
    assert!(c.tcp().get_connection_by_any_fd(&f.remote).is_none());
}

#[test]
fn touch_and_counters() {
    let mut c = forwarder(10);
    let client = Address::from_ipv4(Ipv4Octets(9, 9, 9, 9), 9);
    c.open_udp_session(client, 5, 6, "c".to_string(), 0).unwrap();
    c.touch_udp(&client, 77);
    assert_eq!(c.udp().get_session(&client).unwrap().last_active_time, 77);
    c.record_udp_sent(3);
    c.record_udp_received(4);
    assert_eq!(c.stats().udp_bytes_sent, 3);
    assert_eq!(c.stats().udp_bytes_received, 4);
    assert_eq!(c.stats().tcp_bytes_sent, 0);
    assert_eq!(c.register_listener(6, 0, false).is_some(), true);
}
