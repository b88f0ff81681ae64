use crate::address::{Address, AddressType};
use crate::log::{level_code, LogLevel};
use crate::text::{chars_of, dec, lemma_dec_writable, parse_unsigned, push_dec, text_of, unsigned_text};
use vstd::prelude::*;
use vstd::string::*;

verus! {

/// Buffer size of the listening sockets, in bytes.
pub const LISTEN_FD_BUF_SIZE: usize = 2097152;
/// Period of the eviction tick, in milliseconds.
pub const TIMER_INTERVAL_MS: u64 = 400;
/// Largest UDP payload read, in bytes.
pub const MAX_DATA_LEN_UDP: usize = 65536;
/// Default TCP relay buffer size, in bytes.
pub const MAX_DATA_LEN_TCP: usize = 16384;
pub const DEFAULT_MAX_CONNECTIONS: usize = 20000;
pub const DEFAULT_TCP_TIMEOUT_MS: u64 = 360000;
pub const DEFAULT_UDP_TIMEOUT_MS: u64 = 180000;
pub const DEFAULT_CONN_CLEAR_RATIO: u32 = 30;
pub const DEFAULT_CONN_CLEAR_MIN: u32 = 1;
/// Smallest and largest `--sock-buf`, in KB.
pub const SOCK_BUF_MIN_KB: usize = 10;
pub const SOCK_BUF_MAX_KB: usize = 10240;

/// Address-family translation of the outbound side.
#[derive(Clone, Copy, Debug, PartialEq, Eq, Structural)]
pub enum FwdType {
    /// Connect with the remote's own family.
    Normal,
    /// Connect over IPv6 to the IPv4-mapped form of an IPv4 remote.
    FwdType4to6,
    /// Connect over IPv4 to the address embedded in an IPv4-mapped IPv6 remote.
    FwdType6to4,
}

/// The address an outbound socket connects to: the translated remote, or
/// the remote itself when the translation does not apply.
pub open spec fn connect_address_spec(remote: Address, fwd: FwdType) -> Address {
    match fwd {
        FwdType::FwdType4to6 => match remote {
            Address::V4 { ip, port } => Address::V6 {
                ip: crate::address::mapped_segments(ip),
                port,
                flowinfo: 0,
                scope_id: 0,
            },
            _ => remote,
        },
        FwdType::FwdType6to4 => match remote {
            Address::V6 { ip, port, .. } => if crate::address::is_mapped(ip) {
                Address::V4 { ip: crate::address::embedded_v4(ip), port }
            } else {
                remote
            },
            _ => remote,
        },
        FwdType::Normal => remote,
    }
}

/// Computes [`connect_address_spec`].
pub fn connect_address(remote: &Address, fwd: FwdType) -> (r: Address)
    ensures
        r == connect_address_spec(*remote, fwd),
{
    match fwd {
        FwdType::FwdType4to6 => match remote.to_ipv4_mapped_ipv6() {
            Some(a) => a,
            None => *remote,
        },
        FwdType::FwdType6to4 => match remote.from_ipv4_mapped_ipv6() {
            Some(a) => a,
            None => *remote,
        },
        FwdType::Normal => *remote,
    }
}

/// The family of the outbound socket: the translation's target family, or
/// the remote's own.
pub fn connect_family(remote: &Address, fwd: FwdType) -> (r: AddressType)
    ensures
        r == (match fwd {
            FwdType::FwdType4to6 => AddressType::Ipv6,
            FwdType::FwdType6to4 => AddressType::Ipv4,
            FwdType::Normal => if remote is V4 {
                AddressType::Ipv4
            } else {
                AddressType::Ipv6
            },
        }),
{
    match fwd {
        FwdType::FwdType4to6 => AddressType::Ipv6,
        FwdType::FwdType6to4 => AddressType::Ipv4,
        FwdType::Normal => remote.address_type(),
    }
}

/// Checks a `--sock-buf` value: a decimal number of KB from 10 to 10240.
pub fn validate_buffer_size(s: &str) -> (r: Result<usize, String>)
    ensures
        match unsigned_text(s@) {
            Some(v) => if SOCK_BUF_MIN_KB <= v <= SOCK_BUF_MAX_KB {
                r == Ok::<usize, String>(v as usize)
            } else if v <= u64::MAX {
                r matches Err(m) && m@ == "sock-buf value must be between 10 and 10240 (kbyte), got "@ + dec(v)
            } else {
                r matches Err(m) && m@ == "buffer must be a number"@
            },
            None => r matches Err(m) && m@ == "buffer must be a number"@,
        },
{
    let cs = chars_of(s);
    proof {
        assert(cs@.subrange(0, cs@.len() as int) =~= s@);
    }
    match parse_unsigned(&cs, 0, cs.len(), u64::MAX) {
        Some(v) => {
            if 10 <= v && v <= 10240 {
                Ok(v as usize)
            } else {
                let mut m = String::from_str("sock-buf value must be between 10 and 10240 (kbyte), got ");
                let mut digits: Vec<char> = Vec::new();
                push_dec(&mut digits, v);
                proof {
                    lemma_dec_writable(v as nat);
                }
                m.append(text_of(&digits).as_str());
                Err(m)
            }
        },
        None => Err(String::from_str("buffer must be a number")),
    }
}

/// The level named `s`, compared without regard to ASCII case.
pub open spec fn level_named(s: Seq<char>) -> Option<LogLevel> {
    if ascii_fold(s) == "never"@ {
        Some(LogLevel::Never)
    } else if ascii_fold(s) == "fatal"@ {
        Some(LogLevel::Fatal)
    } else if ascii_fold(s) == "error"@ {
        Some(LogLevel::Error)
    } else if ascii_fold(s) == "warn"@ {
        Some(LogLevel::Warn)
    } else if ascii_fold(s) == "info"@ {
        Some(LogLevel::Info)
    } else if ascii_fold(s) == "debug"@ {
        Some(LogLevel::Debug)
    } else if ascii_fold(s) == "trace"@ {
        Some(LogLevel::Trace)
    } else {
        None
    }
}

/// `c` with an ASCII capital turned to lower case.
pub open spec fn fold_char(c: char) -> char {
    if 'A' <= c && c <= 'Z' {
        ((c as u8) + 32) as char
    } else {
        c
    }
}

/// `s` with ASCII capitals turned to lower case.
pub open spec fn ascii_fold(s: Seq<char>) -> Seq<char> {
    s.map_values(|c: char| fold_char(c))
}

fn fold(cs: &Vec<char>) -> (r: Vec<char>)
    ensures
        r@ == ascii_fold(cs@),
{
    let mut r: Vec<char> = Vec::new();
    let mut i: usize = 0;
    while i < cs.len()
        invariant
            i <= cs@.len(),
            r@ == ascii_fold(cs@.take(i as int)),
        decreases cs@.len() - i,
    {
        let c = cs[i];
        let f = if 'A' <= c && c <= 'Z' {
            ((c as u8) + 32) as char
        } else {
            c
        };
        r.push(f);
        i += 1;
        proof {
            assert(r@ =~= ascii_fold(cs@.take(i as int)));
        }
    }
    proof {
        assert(cs@.take(cs@.len() as int) =~= cs@);
    }
    r
}

fn same_text(a: &Vec<char>, b: &str) -> (r: bool)
    ensures
        r == (a@ == b@),
{
    let bs = chars_of(b);
    if a.len() != bs.len() {
        return false;
    }
    let mut i: usize = 0;
    while i < a.len()
        invariant
            a@.len() == bs@.len(),
            bs@ == b@,
            i <= a@.len(),
            forall|j: int| 0 <= j < i ==> a@[j] == bs@[j],
        decreases a@.len() - i,
    {
        if a[i] != bs[i] {
            return false;
        }
        i += 1;
    }
    proof {
        assert(a@ =~= bs@);
    }
    true
}

/// Reads a `--log-level` value: a code from 0 to 6, or a level name in any
/// ASCII case.
pub fn parse_log_level(s: &str) -> (r: Result<LogLevel, String>)
    ensures
        match unsigned_text(s@) {
            Some(v) => if v <= 255 {
                if v <= 6 {
                    r matches Ok(l) && level_code(l) == v
                } else {
                    r matches Err(m) && m@ == "invalid log_level, must be between 0 and 6"@
                }
            } else {
                match level_named(s@) {
                    Some(l) => r == Ok::<LogLevel, String>(l),
                    None => r matches Err(m) && m@ == "invalid log_level: "@ + s@
                        + ", must be 0-6 or fatal/error/warn/info/debug/trace"@,
                }
            },
            None => match level_named(s@) {
                Some(l) => r == Ok::<LogLevel, String>(l),
                None => r matches Err(m) && m@ == "invalid log_level: "@ + s@
                    + ", must be 0-6 or fatal/error/warn/info/debug/trace"@,
            },
        },
{
    let cs = chars_of(s);
    proof {
        assert(cs@.subrange(0, cs@.len() as int) =~= s@);
    }
    match parse_unsigned(&cs, 0, cs.len(), 255) {
        Some(v) => {
            if v > 6 {
                return Err(String::from_str("invalid log_level, must be between 0 and 6"));
            }
            return match LogLevel::from_u8(v as u8) {
                Ok(l) => Ok(l),
                Err(e) => Err(String::from_str(e)),
            };
        },
        None => {},
    }
    let f = fold(&cs);
    let named = if same_text(&f, "never") {
        Some(LogLevel::Never)
    } else if same_text(&f, "fatal") {
        Some(LogLevel::Fatal)
    } else if same_text(&f, "error") {
        Some(LogLevel::Error)
    } else if same_text(&f, "warn") {
        Some(LogLevel::Warn)
    } else if same_text(&f, "info") {
        Some(LogLevel::Info)
    } else if same_text(&f, "debug") {
        Some(LogLevel::Debug)
    } else if same_text(&f, "trace") {
        Some(LogLevel::Trace)
    } else {
        None
    };
    match named {
        Some(l) => Ok(l),
        None => {
            let mut m = String::from_str("invalid log_level: ");
            m.append(s);
            m.append(", must be 0-6 or fatal/error/warn/info/debug/trace");
            Err(m)
        },
    }
}

/// The forwarder's settings, times in milliseconds.
pub struct Config {
    pub listen_addr: Address,
    pub remote_addr: Address,
    pub enable_tcp: bool,
    pub enable_udp: bool,
    pub socket_buf_size: usize,
    pub listen_fd_buf_size: usize,
    pub log_level: LogLevel,
    pub log_position: bool,
    pub disable_color: bool,
    pub max_connections: usize,
    pub tcp_timeout: u64,
    pub udp_timeout: u64,
    pub conn_clear_ratio: u32,
    pub conn_clear_min: u32,
    pub disable_conn_clear: bool,
    pub timer_interval: u64,
    pub fwd_type: FwdType,
    pub bind_interface: Option<String>,
    pub log_file: Option<String>,
    pub enable_udp_fragment: bool,
}

impl Config {
    /// Buffer size of the listening sockets.
    pub fn listen_fd_buf_size(&self) -> (r: usize)
        ensures
            r == self.listen_fd_buf_size,
    {
        self.listen_fd_buf_size
    }
}

} // verus!
