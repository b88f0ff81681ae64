use tinyportmapper::config::{connect_address, connect_family, parse_log_level, validate_buffer_size, FwdType};
use tinyportmapper::address::{Address, AddressType, Ipv4Octets, Ipv6Segments};
use tinyportmapper::log::{LogLevel, MonotonicClock};
use tinyportmapper::signals::{Signal, SignalAction, SignalHandler};
use tinyportmapper::stats::{format_bytes, TrafficStats};
use tinyportmapper::timer::Timer;

#[test]
fn test_log_level_ordering() {
    assert!(LogLevel::Debug > LogLevel::Info);
    assert!(LogLevel::Error < LogLevel::Warn);
    assert!(LogLevel::Fatal < LogLevel::Error);
    assert!(LogLevel::Warn < LogLevel::Info);
}

#[test]
fn log_level_codes() {
    assert_eq!(LogLevel::from_u8(4), Ok(LogLevel::Info));
    assert_eq!(LogLevel::from_u8(0), Ok(LogLevel::Never));
    assert!(LogLevel::from_u8(7).is_err());
    assert!(LogLevel::is_valid(6));
    assert!(!LogLevel::is_valid(7));
    assert_eq!(LogLevel::Trace.code(), 6);
    assert!(LogLevel::Info.admits(LogLevel::Warn));
    assert!(!LogLevel::Info.admits(LogLevel::Debug));
}

#[test]
fn test_buffer_size_validation() {
    assert!(validate_buffer_size("1024").is_ok());
    assert!(validate_buffer_size("10").is_ok());
    assert!(validate_buffer_size("10240").is_ok());
    assert!(validate_buffer_size("9").is_err());
    assert!(validate_buffer_size("10241").is_err());
    assert!(validate_buffer_size("abc").is_err());
}

#[test]
fn buffer_size_messages() {
    assert_eq!(validate_buffer_size("1024"), Ok(1024));
    assert_eq!(
        validate_buffer_size("9"),
        Err("sock-buf value must be between 10 and 10240 (kbyte), got 9".to_string())
    );
    assert_eq!(validate_buffer_size(""), Err("buffer must be a number".to_string()));
    assert_eq!(validate_buffer_size("-5"), Err("buffer must be a number".to_string()));
}

#[test]
fn format_bytes_values() {
    assert_eq!(format_bytes(0), "0 B");
    assert_eq!(format_bytes(1023), "1023 B");
    assert_eq!(format_bytes(1024), "1.00 KB");
    assert_eq!(format_bytes(1536), "1.50 KB");
    assert_eq!(format_bytes(1048576), "1.00 MB");
    assert_eq!(format_bytes(5 * 1073741824 + 536870912), "5.50 GB");
    assert_eq!(format_bytes(1029), "1.00 KB");
    assert_eq!(format_bytes(1034), "1.01 KB");
}

#[test]
fn format_bytes_matches_float_formatting() {
    for b in [1024u64, 1152, 1500, 2047, 3200, 4096 + 5, 1048575, 123456789, 9_999_999_999] {
        let expected = if b >= 1073741824 {
            format!("{:.2} GB", b as f64 / 1073741824.0)
        } else if b >= 1048576 {
            format!("{:.2} MB", b as f64 / 1048576.0)
        } else {
            format!("{:.2} KB", b as f64 / 1024.0)
        };
        assert_eq!(format_bytes(b), expected);
    }
}

#[test]
fn stats_counters_and_text() {
    let mut s = TrafficStats::new();
    s.add_tcp_received(5);
    s.add_tcp_sent(2048);
    s.add_udp_received(1);
    s.add_udp_sent(0);
    s.inc_tcp_connections();
    s.inc_udp_sessions();
    s.dec_udp_sessions();
    s.dec_udp_sessions();
    assert_eq!(s.tcp_connections, 1);
    assert_eq!(s.udp_sessions, 0);
    assert_eq!(s.get_stats_string(), "TCP: 5 B/2.00 KB, UDP: 1 B/0 B");
    s.dec_tcp_connections();
    assert_eq!(s.tcp_connections, 0);
}

#[test]
fn timer_fires_due_tasks_and_reschedules() {
    let mut t = Timer::new();
    let a = t.register_at(1000, 400);
    let b = t.register_at(1000, 10_000);
    assert_eq!(t.next_timeout_at(1000), Some(400));
    assert!(t.run_at(1399).is_empty());
    assert_eq!(t.run_at(1400), vec![a]);
    assert_eq!(t.next_timeout_at(1400), Some(400));
    assert_eq!(t.run_at(11_000), vec![a, b]);
    assert_eq!(t.next_timeout_at(20_000), Some(0));
    assert_eq!(Timer::new().next_timeout_at(5), None);
}

#[test]
fn connect_address_per_mode() {
    let v4 = Address::from_ipv4(Ipv4Octets(127, 0, 0, 1), 9002);
    let mapped = Address::from_ipv6(Ipv6Segments(0, 0, 0, 0, 0, 0xffff, 0x7f00, 0x0001), 9002);
    let plain6 = Address::from_ipv6(Ipv6Segments(0x2001, 0xdb8, 0, 0, 0, 0, 0, 1), 9002);
    assert_eq!(connect_address(&v4, FwdType::Normal), v4);
    assert_eq!(connect_address(&v4, FwdType::FwdType4to6), mapped);
    assert_eq!(connect_address(&mapped, FwdType::FwdType6to4), v4);
    assert_eq!(connect_address(&plain6, FwdType::FwdType6to4), plain6);
    assert_eq!(connect_address(&plain6, FwdType::FwdType4to6), plain6);
    assert_eq!(connect_address(&mapped, FwdType::FwdType4to6).to_string(), "[::ffff:127.0.0.1]:9002");
    assert_eq!(connect_family(&v4, FwdType::FwdType4to6), AddressType::Ipv6);
    assert_eq!(connect_family(&plain6, FwdType::FwdType6to4), AddressType::Ipv4);
    assert_eq!(connect_family(&v4, FwdType::Normal), AddressType::Ipv4);
}

#[test]
fn signals_stop_the_loop() {
    let mut h = SignalHandler::new();
    assert!(h.is_running());
    assert!(h.register().is_ok());
    assert_eq!(h.on_signal(Signal::Pipe), SignalAction::Ignore);
    assert_eq!(h.on_signal(Signal::Other(10)), SignalAction::Unknown);
    assert!(h.is_running());
    assert_eq!(h.on_signal(Signal::Term), SignalAction::Exit);
    assert!(!h.is_running());
    let mut g = SignalHandler::new();
    g.stop();
    assert!(!g.is_running());
}

#[test]
fn monotonic_clock_never_goes_back() {
    let mut c = MonotonicClock::new();
    assert_eq!(c.observe(1000), 1000);
    assert_eq!(c.observe(1500), 1500);
    assert_eq!(c.observe(1200), 1500);
    assert_eq!(c.observe(1300), 1600);
    let now = c.now();
    assert!(now >= 1600);
}

#[test]
fn log_level_text() {
    assert_eq!(parse_log_level("info"), Ok(LogLevel::Info));
    assert_eq!(parse_log_level("TRACE"), Ok(LogLevel::Trace));
    assert_eq!(parse_log_level("Warn"), Ok(LogLevel::Warn));
    assert_eq!(parse_log_level("3"), Ok(LogLevel::Warn));
    assert_eq!(parse_log_level("0"), Ok(LogLevel::Never));
    assert_eq!(parse_log_level("7"), Err("invalid log_level, must be between 0 and 6".to_string()));
    assert_eq!(
        parse_log_level("loud"),
        Err("invalid log_level: loud, must be 0-6 or fatal/error/warn/info/debug/trace".to_string())
    );
    assert!(parse_log_level("300").is_err());
}
