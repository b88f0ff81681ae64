use tinyportmapper::address::Address;
use tinyportmapper::fd_manager::Fd64;
use tinyportmapper::manager::{sweep_count, TcpConnectionManager, UdpSessionManager};
use tinyportmapper::stats::TrafficStats;
use std::str::FromStr;

#[test]
fn test_tcp_connection_manager() {
    let mut manager = TcpConnectionManager::new(60_000, 30, 1, false);

    manager.new_connection(Fd64(1), Fd64(2), "127.0.0.1:12345".to_string(), 1000, 16384, false);

    assert_eq!(manager.len(), 1);
    assert!(manager.get_connection(&Fd64(1)).is_some());

    manager.erase(&Fd64(1));
    assert!(manager.is_empty());
}

#[test]
fn test_udp_session_manager() {
    let mut manager = UdpSessionManager::new(30_000, 30, 1, false);

    let addr = Address::from_str("127.0.0.1:12345").expect("Address parsing failed");
    let addr_clone = addr.clone();
    manager.new_session(addr, Fd64(1), Fd64(2), "127.0.0.1:12345".to_string(), 1000);

    assert_eq!(manager.len(), 1);
    assert!(manager.get_session(&addr_clone).is_some());

    manager.erase(&addr_clone);
    assert!(manager.is_empty());
}

#[test]
fn lookup_by_either_handle_finds_the_same_record() {
    let mut manager = TcpConnectionManager::new(60_000, 30, 1, false);
    manager.new_connection(Fd64(1), Fd64(2), "a".to_string(), 1000, 64, false);
    manager.new_connection(Fd64(3), Fd64(4), "b".to_string(), 1000, 64, false);
    let by_local = manager.get_connection_by_any_fd(&Fd64(3)).expect("local side");
    let by_remote = manager.get_connection_by_any_fd(&Fd64(4)).expect("remote side");
    assert_eq!(by_local.local.fd64(), Fd64(3));
    assert_eq!(by_remote.local.fd64(), Fd64(3));
    assert_eq!(by_remote.addr_s, "b");
    assert!(manager.get_connection_by_any_fd(&Fd64(9)).is_none());
    assert!(manager.get_connection(&Fd64(4)).is_none());
}

#[test]
fn secondary_index_follows_sessions() {
    let mut manager = UdpSessionManager::new(30_000, 30, 1, false);
    let a = Address::from_str("10.0.0.1:5000").unwrap();
    let b = Address::from_str("10.0.0.2:5000").unwrap();
    manager.new_session(a, Fd64(11), Fd64(1), "a".to_string(), 1000);
    manager.new_session(b, Fd64(12), Fd64(1), "b".to_string(), 1000);
    assert_eq!(manager.get_session_by_fd64(&Fd64(12)).unwrap().address, b);
    manager.erase(&b);
    assert!(manager.get_session_by_fd64(&Fd64(12)).is_none());
    assert_eq!(manager.get_session_by_fd64(&Fd64(11)).unwrap().address, a);
}

#[test]
fn sweep_bound_formula() {
    assert_eq!(sweep_count(0, 30, 1), 0);
    assert_eq!(sweep_count(10, 30, 1), 1);
    assert_eq!(sweep_count(90, 30, 1), 4);
    assert_eq!(sweep_count(10, 1, 1), 10);
    assert_eq!(sweep_count(3, 30, 5), 3);
}

#[test]
fn sweep_removes_oldest_stale_records_up_to_the_bound() {
    let mut manager = TcpConnectionManager::new(1000, 30, 2, false);
    manager.new_connection(Fd64(1), Fd64(2), "a".to_string(), 300, 64, false);
    manager.new_connection(Fd64(3), Fd64(4), "b".to_string(), 100, 64, false);
    manager.new_connection(Fd64(5), Fd64(6), "c".to_string(), 200, 64, false);
    manager.new_connection(Fd64(7), Fd64(8), "d".to_string(), 9000, 64, false);
    let removed = manager.clear_inactive_at(10_000);
    let names: Vec<String> = removed.iter().map(|c| c.addr_s.clone()).collect();
    assert_eq!(names, vec!["b".to_string(), "c".to_string()]);
    assert_eq!(manager.len(), 2);
    // a second sweep within the interval does nothing
    assert!(manager.clear_inactive_at(10_500).is_empty());
    let removed = manager.clear_inactive_at(11_000);
    let names: Vec<String> = removed.iter().map(|c| c.addr_s.clone()).collect();
    assert_eq!(names, vec!["a".to_string(), "d".to_string()]);
    assert!(manager.is_empty());
}

#[test]
fn sweep_stops_when_nothing_is_stale() {
    let mut manager = TcpConnectionManager::new(1000, 1, 1, false);
    for i in 0..10u64 {
        manager.new_connection(Fd64(2 * i + 1), Fd64(2 * i + 2), format!("c{}", i), 5000, 64, false);
    }
    manager.update_lru_at(&Fd64(1), 9500);
    let removed = manager.clear_inactive_at(10_000);
    assert_eq!(removed.len(), 9);
    assert_eq!(manager.len(), 1);
    assert!(manager.get_connection(&Fd64(1)).is_some());
}

#[test]
fn disabled_sweep_removes_nothing() {
    let mut manager = UdpSessionManager::new(10, 1, 1, true);
    let a = Address::from_str("10.0.0.1:5000").unwrap();
    manager.new_session(a, Fd64(11), Fd64(1), "a".to_string(), 0);
    assert!(manager.clear_inactive_at(100_000).is_empty());
    assert_eq!(manager.len(), 1);
}

#[test]
fn udp_sweep_removes_idle_sessions() {
    let mut manager = UdpSessionManager::new(180_000, 30, 1, false);
    let a = Address::from_str("10.0.0.1:5000").unwrap();
    manager.new_session(a, Fd64(11), Fd64(1), "a".to_string(), 0);
    let removed = manager.clear_inactive_at(200_000);
    assert_eq!(removed.len(), 1);
    assert_eq!(removed[0].address, a);
    assert!(manager.is_empty());
    assert!(manager.get_session_by_fd64(&Fd64(11)).is_none());
}

#[test]
fn counted_operations_keep_the_gauge() {
    let mut stats = TrafficStats::new();
    let mut tcp = TcpConnectionManager::new(1000, 30, 1, false);
    tcp.new_connection_counted(&mut stats, Fd64(1), Fd64(2), "a".to_string(), 0, 8, false);
    tcp.new_connection_counted(&mut stats, Fd64(3), Fd64(4), "b".to_string(), 5000, 8, false);
    assert_eq!(stats.tcp_connections, 2);
    let removed = tcp.clear_inactive_at_counted(&mut stats, 5500);
    assert_eq!(removed.len(), 1);
    assert_eq!(stats.tcp_connections, 1);
    assert!(tcp.erase_counted(&mut stats, &Fd64(3)).is_some());
    assert_eq!(stats.tcp_connections, 0);
    assert!(tcp.erase_counted(&mut stats, &Fd64(3)).is_none());
    assert_eq!(stats.tcp_connections, 0);

    let mut udp = UdpSessionManager::new(1000, 30, 1, false);
    let a = Address::from_str("10.0.0.1:5000").unwrap();
    udp.new_session_counted(&mut stats, a, Fd64(11), Fd64(1), "a".to_string(), 0);
    assert_eq!(stats.udp_sessions, 1);
    assert!(udp.clear_inactive_at_counted(&mut stats, 100).is_empty());
    assert!(udp.erase_counted(&mut stats, &a).is_some());
    assert_eq!(stats.udp_sessions, 0);
    assert_eq!(stats.tcp_bytes_received, 0);
}

#[test]
fn touching_refreshes_only_the_record() {
    let mut m = TcpConnectionManager::new(1000, 30, 1, false);
    m.new_connection(Fd64(1), Fd64(2), "a".to_string(), 0, 8, false);
    m.new_connection(Fd64(3), Fd64(4), "b".to_string(), 0, 8, false);
    assert!(m.update_lru_at(&Fd64(3), 700));
    assert_eq!(m.get_connection(&Fd64(3)).unwrap().last_active_time, 700);
    assert_eq!(m.get_connection(&Fd64(1)).unwrap().last_active_time, 0);
    assert!(!m.update_lru_at(&Fd64(4), 800));
}
