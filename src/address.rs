use crate::ip_text::{parse_ipv4, parse_ipv6, parse_ipv6_exec, read_ipv4_exec};
use crate::ip_text::{digit_run, read_groups, read_ipv4, read_number, read_octet, read_sep, v4_segments, lemma_read_number_bounds};
use crate::text::{all_digits, digit_value, lemma_dec_props, lemma_hex_props, value_of};
use crate::text::{
    chars_of, dec, hex, lemma_dec_writable, lemma_hex_writable, parse_unsigned, push_dec, push_hex, text_of,
    unsigned_text, writable,
};
use vstd::prelude::*;

verus! {

/// The four octets of an IPv4 address.
#[derive(Clone, Copy, Debug, PartialEq, Eq, Hash, Structural)]
pub struct Ipv4Octets(pub u8, pub u8, pub u8, pub u8);

/// The eight 16-bit segments of an IPv6 address.
#[derive(Clone, Copy, Debug, PartialEq, Eq, Hash, Structural)]
pub struct Ipv6Segments(pub u16, pub u16, pub u16, pub u16, pub u16, pub u16, pub u16, pub u16);

/// A socket address: IPv4 (octets, port) or IPv6 (segments, port, flow
/// label, scope id).
#[derive(Clone, Copy, Debug, Eq, Hash)]
pub enum Address {
    V4 { ip: Ipv4Octets, port: u16 },
    V6 { ip: Ipv6Segments, port: u16, flowinfo: u32, scope_id: u32 },
}

impl PartialEq for Address {
    fn eq(&self, other: &Address) -> (r: bool) {
        match (self, other) {
            (Address::V4 { ip: a, port: p }, Address::V4 { ip: b, port: q }) => *a == *b && *p == *q,
            (
                Address::V6 { ip: a, port: p, flowinfo: f, scope_id: s },
                Address::V6 { ip: b, port: q, flowinfo: g, scope_id: t },
            ) => *a == *b && *p == *q && *f == *g && *s == *t,
            _ => false,
        }
    }
}

impl vstd::std_specs::cmp::PartialEqSpecImpl for Address {
    open spec fn obeys_eq_spec() -> bool {
        true
    }

    open spec fn eq_spec(&self, other: &Address) -> bool {
        *self == *other
    }
}

/// Type code of an IPv4 address.
pub const ADDR_TYPE_IPV4: u8 = 4;
/// Type code of an IPv6 address.
pub const ADDR_TYPE_IPV6: u8 = 6;

/// The family of an address.
#[derive(Clone, Copy, Debug, PartialEq, Eq, Structural)]
pub enum AddressType {
    Ipv4,
    Ipv6,
}

/// Why a text is not an address.
#[derive(Clone, Copy, Debug, PartialEq, Eq, Structural)]
pub enum AddressParseError {
    InvalidFormat,
    InvalidIp,
    InvalidPort,
}

/// The segments of `s`, first to last.
pub open spec fn segs_of(s: Ipv6Segments) -> Seq<u16> {
    seq![s.0, s.1, s.2, s.3, s.4, s.5, s.6, s.7]
}

/// The IPv4-mapped IPv6 segments of an IPv4 address: `::ffff:a.b.c.d`.
pub open spec fn mapped_segments(ip: Ipv4Octets) -> Ipv6Segments {
    Ipv6Segments(0, 0, 0, 0, 0, 0xffff, (ip.0 * 256 + ip.1) as u16, (ip.2 * 256 + ip.3) as u16)
}

/// Whether `s` has the IPv4-mapped form `::ffff:x:y`.
pub open spec fn is_mapped(s: Ipv6Segments) -> bool {
    s.0 == 0 && s.1 == 0 && s.2 == 0 && s.3 == 0 && s.4 == 0 && s.5 == 0xffff
}

/// The IPv4 address embedded in the last two segments.
pub open spec fn embedded_v4(s: Ipv6Segments) -> Ipv4Octets {
    Ipv4Octets((s.6 / 256) as u8, (s.6 % 256) as u8, (s.7 / 256) as u8, (s.7 % 256) as u8)
}

impl Address {
    pub fn from_ipv4(ip: Ipv4Octets, port: u16) -> (r: Self)
        ensures
            r == (Address::V4 { ip, port }),
    {
        Address::V4 { ip, port }
    }

    pub fn from_ipv6(ip: Ipv6Segments, port: u16) -> (r: Self)
        ensures
            r == (Address::V6 { ip, port, flowinfo: 0, scope_id: 0 }),
    {
        Address::V6 { ip, port, flowinfo: 0, scope_id: 0 }
    }

    /// An IPv6 address with a scope id and no flow label.
    pub fn from_ipv6_with_scope_id(ip: Ipv6Segments, port: u16, scope_id: u32) -> (r: Self)
        ensures
            r == (Address::V6 { ip, port, flowinfo: 0, scope_id }),
    {
        Address::V6 { ip, port, flowinfo: 0, scope_id }
    }

    /// `ADDR_TYPE_IPV4` or `ADDR_TYPE_IPV6`.
    pub fn get_type(&self) -> (r: u8)
        ensures
            r == (if self is V4 { ADDR_TYPE_IPV4 } else { ADDR_TYPE_IPV6 }),
    {
        match self {
            Address::V4 { .. } => ADDR_TYPE_IPV4,
            Address::V6 { .. } => ADDR_TYPE_IPV6,
        }
    }

    /// The family of the address.
    pub fn address_type(&self) -> (r: AddressType)
        ensures
            r == (if self is V4 { AddressType::Ipv4 } else { AddressType::Ipv6 }),
    {
        match self {
            Address::V4 { .. } => AddressType::Ipv4,
            Address::V6 { .. } => AddressType::Ipv6,
        }
    }

    /// The size of the OS socket address structure: 16 for IPv4, 28 for IPv6.
    pub fn get_len(&self) -> (r: usize)
        ensures
            r == (if self is V4 { 16usize } else { 28usize }),
    {
        match self {
            Address::V4 { .. } => 16,
            Address::V6 { .. } => 28,
        }
    }

    pub fn port(&self) -> (r: u16)
        ensures
            r == (match *self {
                Address::V4 { port, .. } => port,
                Address::V6 { port, .. } => port,
            }),
    {
        match self {
            Address::V4 { port, .. } => *port,
            Address::V6 { port, .. } => *port,
        }
    }

    /// The bytes that identify the endpoint: IPv4 octets and port, or IPv6
    /// octets, port, flow label and scope id, integers big-endian.
    pub fn to_bytes(&self) -> (r: Vec<u8>)
        ensures
            r@ == address_bytes(*self),
    {
        let mut v: Vec<u8> = Vec::new();
        match self {
            Address::V4 { ip, port } => {
                v.push(ip.0);
                v.push(ip.1);
                v.push(ip.2);
                v.push(ip.3);
                push_be16(&mut v, *port);
            },
            Address::V6 { ip, port, flowinfo, scope_id } => {
                push_be16(&mut v, ip.0);
                push_be16(&mut v, ip.1);
                push_be16(&mut v, ip.2);
                push_be16(&mut v, ip.3);
                push_be16(&mut v, ip.4);
                push_be16(&mut v, ip.5);
                push_be16(&mut v, ip.6);
                push_be16(&mut v, ip.7);
                push_be16(&mut v, *port);
                push_be32(&mut v, *flowinfo);
                push_be32(&mut v, *scope_id);
            },
        }
        proof {
            assert(v@ =~= address_bytes(*self));
        }
        v
    }

    /// For 4-to-6 translation: the IPv4-mapped IPv6 form `::ffff:a.b.c.d`
    /// of an IPv4 address, same port; `None` for an IPv6 address.
    pub fn to_ipv4_mapped_ipv6(&self) -> (r: Option<Address>)
        ensures
            r == (match *self {
                Address::V4 { ip, port } => Some(
                    Address::V6 { ip: mapped_segments(ip), port, flowinfo: 0, scope_id: 0 },
                ),
                Address::V6 { .. } => None::<Address>,
            }),
    {
        match self {
            Address::V4 { ip, port } => {
                let segs = Ipv6Segments(
                    0,
                    0,
                    0,
                    0,
                    0,
                    0xffff,
                    (ip.0 as u16) * 256 + ip.1 as u16,
                    (ip.2 as u16) * 256 + ip.3 as u16,
                );
                Some(Address::from_ipv6(segs, *port))
            },
            Address::V6 { .. } => None,
        }
    }

    /// For 6-to-4 translation: the IPv4 address embedded in an IPv4-mapped
    /// IPv6 address, same port; `None` for any other address.
    pub fn from_ipv4_mapped_ipv6(&self) -> (r: Option<Address>)
        ensures
            r == (match *self {
                Address::V6 { ip, port, .. } => if is_mapped(ip) {
                    Some(Address::V4 { ip: embedded_v4(ip), port })
                } else {
                    None::<Address>
                },
                Address::V4 { .. } => None::<Address>,
            }),
    {
        match self {
            Address::V6 { ip, port, .. } => {
                if ip.0 == 0 && ip.1 == 0 && ip.2 == 0 && ip.3 == 0 && ip.4 == 0 && ip.5 == 0xffff {
                    let v4 = Ipv4Octets((ip.6 / 256) as u8, (ip.6 % 256) as u8, (ip.7 / 256) as u8, (ip.7 % 256) as u8);
                    Some(Address::from_ipv4(v4, *port))
                } else {
                    None
                }
            },
            Address::V4 { .. } => None,
        }
    }
}

/// Mapping an IPv4 address into IPv6 and extracting it again gives it back.
pub proof fn lemma_mapped_round_trip(ip: Ipv4Octets, port: u16)
    ensures
        is_mapped(mapped_segments(ip)),
        embedded_v4(mapped_segments(ip)) == ip,
{
    let s = mapped_segments(ip);
    assert(s.6 / 256 == ip.0 && s.6 % 256 == ip.1) by (nonlinear_arith)
        requires s.6 == ip.0 * 256 + ip.1, ip.0 < 256, ip.1 < 256;
    assert(s.7 / 256 == ip.2 && s.7 % 256 == ip.3) by (nonlinear_arith)
        requires s.7 == ip.2 * 256 + ip.3, ip.2 < 256, ip.3 < 256;
}

/// The two bytes of `x`, most significant first.
pub open spec fn be16(x: u16) -> Seq<u8> {
    seq![(x / 256) as u8, (x % 256) as u8]
}

/// The four bytes of `x`, most significant first.
pub open spec fn be32(x: u32) -> Seq<u8> {
    seq![(x / 0x1000000) as u8, ((x / 0x10000) % 256) as u8, ((x / 256) % 256) as u8, (x % 256) as u8]
}

/// The identifying bytes of an address.
pub open spec fn address_bytes(a: Address) -> Seq<u8> {
    match a {
        Address::V4 { ip, port } => seq![ip.0, ip.1, ip.2, ip.3] + be16(port),
        Address::V6 { ip, port, flowinfo, scope_id } => be16(ip.0) + be16(ip.1) + be16(ip.2) + be16(ip.3)
            + be16(ip.4) + be16(ip.5) + be16(ip.6) + be16(ip.7) + be16(port) + be32(flowinfo) + be32(
            scope_id,
        ),
    }
}

fn push_be16(v: &mut Vec<u8>, x: u16)
    ensures
        final(v)@ == old(v)@ + be16(x),
{
    v.push((x / 256) as u8);
    v.push((x % 256) as u8);
    proof {
        assert(final(v)@ =~= old(v)@ + be16(x));
    }
}

fn push_be32(v: &mut Vec<u8>, x: u32)
    ensures
        final(v)@ == old(v)@ + be32(x),
{
    v.push((x / 0x1000000) as u8);
    v.push(((x / 0x10000) % 256) as u8);
    v.push(((x / 256) % 256) as u8);
    v.push((x % 256) as u8);
    proof {
        assert(final(v)@ =~= old(v)@ + be32(x));
    }
}

/// The first position at or after `from` where `s` holds `c`.
pub open spec fn first_index(s: Seq<char>, c: char, from: int) -> Option<int>
    decreases s.len() - from,
{
    if from < 0 || from >= s.len() {
        None
    } else if s[from] == c {
        Some(from)
    } else {
        first_index(s, c, from + 1)
    }
}

/// The last position before `upto` where `s` holds `c`.
pub open spec fn last_index(s: Seq<char>, c: char, upto: int) -> Option<int>
    decreases upto,
{
    if upto <= 0 || upto > s.len() {
        None
    } else if s[upto - 1] == c {
        Some(upto - 1)
    } else {
        last_index(s, c, upto - 1)
    }
}

/// A port number text: what `u16::from_str` accepts.
pub open spec fn port_text(s: Seq<char>) -> Option<u16> {
    match unsigned_text(s) {
        Some(v) => if v <= 65535 {
            Some(v as u16)
        } else {
            None
        },
        None => None,
    }
}

/// The segments in `g`, which has eight.
pub open spec fn segs_from(g: Seq<u16>) -> Ipv6Segments {
    Ipv6Segments(g[0], g[1], g[2], g[3], g[4], g[5], g[6], g[7])
}

/// The address written `a.b.c.d:port` or `[v6]:port`, or why `s` is none.
pub open spec fn parse_address(s: Seq<char>) -> Result<Address, AddressParseError> {
    if s.len() > 0 && s[0] == '[' {
        match first_index(s, ']', 0) {
            None => Err(AddressParseError::InvalidFormat),
            Some(c) => {
                let rest = s.subrange(c + 1, s.len() as int);
                if !(rest.len() > 0 && rest[0] == ':') {
                    Err(AddressParseError::InvalidFormat)
                } else {
                    match port_text(rest.skip(1)) {
                        None => Err(AddressParseError::InvalidPort),
                        Some(port) => match parse_ipv6(s.subrange(1, c)) {
                            None => Err(AddressParseError::InvalidIp),
                            Some(g) => Ok(Address::V6 { ip: segs_from(g), port, flowinfo: 0, scope_id: 0 }),
                        },
                    }
                }
            },
        }
    } else {
        match last_index(s, ':', s.len() as int) {
            None => Err(AddressParseError::InvalidFormat),
            Some(c) => {
                let ip = s.subrange(0, c);
                if first_index(ip, ':', 0) is Some {
                    Err(AddressParseError::InvalidFormat)
                } else {
                    match parse_ipv4(ip) {
                        None => Err(AddressParseError::InvalidIp),
                        Some(o) => match port_text(s.subrange(c + 1, s.len() as int)) {
                            None => Err(AddressParseError::InvalidPort),
                            Some(port) => Ok(Address::V4 { ip: o, port }),
                        },
                    }
                }
            },
        }
    }
}

/// Dotted-quad text of an IPv4 address.
pub open spec fn fmt_ipv4(o: Ipv4Octets) -> Seq<char> {
    dec(o.0 as nat) + seq!['.'] + dec(o.1 as nat) + seq!['.'] + dec(o.2 as nat) + seq!['.'] + dec(o.3 as nat)
}

/// Scans `g` from `i` for the longest run of zero segments (the first of
/// equal ones), given the current run and the best so far; gives its start
/// and length.
pub open spec fn zero_run(g: Seq<u16>, i: int, cs: int, cl: int, bs: int, bl: int) -> (int, int)
    decreases g.len() - i,
{
    if i < 0 || i >= g.len() {
        (bs, bl)
    } else if g[i] == 0 {
        let ns = if cl == 0 {
            i
        } else {
            cs
        };
        if cl + 1 > bl {
            zero_run(g, i + 1, ns, cl + 1, ns, cl + 1)
        } else {
            zero_run(g, i + 1, ns, cl + 1, bs, bl)
        }
    } else {
        zero_run(g, i + 1, 0, 0, bs, bl)
    }
}

/// Segments in lower-case hexadecimal, separated by `:`.
pub open spec fn join_hex(g: Seq<u16>) -> Seq<char>
    decreases g.len(),
{
    if g.len() == 0 {
        Seq::empty()
    } else if g.len() == 1 {
        hex(g[0] as nat)
    } else {
        join_hex(g.drop_last()) + seq![':'] + hex(g.last() as nat)
    }
}

/// The text of an IPv6 address: `::ffff:a.b.c.d` for an IPv4-mapped one,
/// else hexadecimal segments with the longest run of two or more zero
/// segments written `::`.
pub open spec fn fmt_ipv6(x: Ipv6Segments) -> Seq<char> {
    if is_mapped(x) {
        seq![':', ':', 'f', 'f', 'f', 'f', ':'] + fmt_ipv4(embedded_v4(x))
    } else {
        let g = segs_of(x);
        let run = zero_run(g, 0, 0, 0, 0, 0);
        if run.1 > 1 {
            join_hex(g.subrange(0, run.0)) + seq![':', ':'] + join_hex(g.subrange(run.0 + run.1, 8))
        } else {
            join_hex(g)
        }
    }
}

/// The text of an address: `a.b.c.d:port` or `[v6]:port`.
pub open spec fn fmt_address(a: Address) -> Seq<char> {
    match a {
        Address::V4 { ip, port } => fmt_ipv4(ip) + seq![':'] + dec(port as nat),
        Address::V6 { ip, port, .. } => seq!['['] + fmt_ipv6(ip) + seq![']', ':'] + dec(port as nat),
    }
}

/// The first match lies in range, holds the character, and none comes before it.
pub proof fn lemma_first_index(s: Seq<char>, c: char, from: int)
    requires
        0 <= from,
    ensures
        first_index(s, c, from) matches Some(i) ==> from <= i < s.len() && s[i] == c && forall|j: int|
            from <= j < i ==> s[j] != c,
        first_index(s, c, from) is None ==> forall|j: int| from <= j < s.len() ==> s[j] != c,
    decreases s.len() - from,
{
    if from < s.len() && s[from] != c {
        lemma_first_index(s, c, from + 1);
    }
}

/// The last match lies in range, holds the character, and none comes after it.
pub proof fn lemma_last_index(s: Seq<char>, c: char, upto: int)
    requires
        0 <= upto <= s.len(),
    ensures
        last_index(s, c, upto) matches Some(i) ==> 0 <= i < upto && s[i] == c && forall|j: int|
            i < j < upto ==> s[j] != c,
        last_index(s, c, upto) is None ==> forall|j: int| 0 <= j < upto ==> s[j] != c,
    decreases upto,
{
    if upto > 0 && s[upto - 1] != c {
        lemma_last_index(s, c, upto - 1);
    }
}

fn find_first(s: &Vec<char>, c: char) -> (r: Option<usize>)
    ensures
        match first_index(s@, c, 0) {
            Some(i) => r == Some(i as usize) && i < s@.len() && s@[i] == c,
            None => r is None,
        },
{
    proof {
        lemma_first_index(s@, c, 0);
    }
    let mut i: usize = 0;
    while i < s.len()
        invariant
            i <= s@.len(),
            first_index(s@, c, 0) == first_index(s@, c, i as int),
        decreases s@.len() - i,
    {
        if s[i] == c {
            return Some(i);
        }
        i += 1;
    }
    None
}

fn find_last(s: &Vec<char>, c: char, upto: usize) -> (r: Option<usize>)
    requires
        upto <= s@.len(),
    ensures
        match last_index(s@, c, upto as int) {
            Some(i) => r == Some(i as usize) && 0 <= i < upto,
            None => r is None,
        },
{
    proof {
        lemma_last_index(s@, c, upto as int);
    }
    let mut i: usize = upto;
    while i > 0
        invariant
            i <= upto <= s@.len(),
            last_index(s@, c, upto as int) == last_index(s@, c, i as int),
        decreases i,
    {
        if s[i - 1] == c {
            return Some(i - 1);
        }
        i -= 1;
    }
    None
}

fn slice_of(s: &Vec<char>, start: usize, end: usize) -> (r: Vec<char>)
    requires
        start <= end <= s@.len(),
    ensures
        r@ == s@.subrange(start as int, end as int),
{
    let mut r: Vec<char> = Vec::new();
    let mut k: usize = start;
    while k < end
        invariant
            start <= k <= end <= s@.len(),
            r@ == s@.subrange(start as int, k as int),
        decreases end - k,
    {
        r.push(s[k]);
        k += 1;
        proof {
            assert(r@ =~= s@.subrange(start as int, k as int));
        }
    }
    r
}

fn parse_port(s: &Vec<char>, start: usize, end: usize) -> (r: Option<u16>)
    requires
        start <= end <= s@.len(),
    ensures
        r == port_text(s@.subrange(start as int, end as int)),
{
    match parse_unsigned(s, start, end, 65535) {
        Some(v) => Some(v as u16),
        None => None,
    }
}

impl Address {
    /// Reads `a.b.c.d:port` or `[v6]:port`.
    pub fn parse(s: &str) -> (r: Result<Address, AddressParseError>)
        ensures
            r == parse_address(s@),
    {
        let cs = chars_of(s);
        let n = cs.len();
        if n > 0 && cs[0] == '[' {
            let close = match find_first(&cs, ']') {
                Some(c) => c,
                None => return Err(AddressParseError::InvalidFormat),
            };
            proof {
                lemma_first_index(cs@, ']', 0);
                assert(first_index(cs@, ']', 0) is Some);
                assert(close < n);
            }
            if !(close + 1 < n && cs[close + 1] == ':') {
                proof {
                    let rest = cs@.subrange(close + 1, n as int);
                    if rest.len() > 0 {
                        assert(rest[0] == cs@[close + 1]);
                    }
                }
                return Err(AddressParseError::InvalidFormat);
            }
            proof {
                let rest = cs@.subrange(close + 1, n as int);
                assert(rest[0] == cs@[close + 1]);
                assert(rest.skip(1) =~= cs@.subrange(close + 2, n as int));
            }
            let port = match parse_port(&cs, close + 2, n) {
                Some(p) => p,
                None => return Err(AddressParseError::InvalidPort),
            };
            if close < 1 {
                proof {
                    assert(cs@[0] == '[');
                }
                return Err(AddressParseError::InvalidFormat);
            }
            match parse_ipv6_exec(&cs, 1, close) {
                Some(ip) => {
                    proof {
                        let g = parse_ipv6(cs@.subrange(1, close as int)).unwrap();
                        assert(segs_of(ip) == g);
                        assert(segs_from(g) == ip);
                    }
                    Ok(Address::V6 { ip, port, flowinfo: 0, scope_id: 0 })
                },
                None => Err(AddressParseError::InvalidIp),
            }
        } else {
            let colon = match find_last(&cs, ':', n) {
                Some(c) => c,
                None => return Err(AddressParseError::InvalidFormat),
            };
            let ip_text = slice_of(&cs, 0, colon);
            if find_first(&ip_text, ':').is_some() {
                return Err(AddressParseError::InvalidFormat);
            }
            let ip = match read_ipv4_exec(&ip_text, 0) {
                Some((o, p)) => {
                    if p == ip_text.len() {
                        o
                    } else {
                        return Err(AddressParseError::InvalidIp);
                    }
                },
                None => return Err(AddressParseError::InvalidIp),
            };
            match parse_port(&cs, colon + 1, n) {
                Some(port) => Ok(Address::V4 { ip, port }),
                None => Err(AddressParseError::InvalidPort),
            }
        }
    }

    /// The text of the address; see [`fmt_address`].
    pub fn to_string(&self) -> (r: String)
        ensures
            r@ == fmt_address(*self),
    {
        let mut cs: Vec<char> = Vec::new();
        match self {
            Address::V4 { ip, port } => {
                push_ipv4(&mut cs, ip);
                cs.push(':');
                push_dec(&mut cs, *port as u64);
            },
            Address::V6 { ip, port, .. } => {
                cs.push('[');
                push_ipv6(&mut cs, ip);
                cs.push(']');
                cs.push(':');
                push_dec(&mut cs, *port as u64);
            },
        }
        proof {
            lemma_fmt_address_writable(*self);
            assert(cs@ =~= fmt_address(*self));
        }
        text_of(&cs)
    }
}

impl std::str::FromStr for Address {
    type Err = AddressParseError;

    fn from_str(s: &str) -> Result<Address, AddressParseError> {
        Address::parse(s)
    }
}

fn push_ipv4(out: &mut Vec<char>, o: &Ipv4Octets)
    ensures
        final(out)@ == old(out)@ + fmt_ipv4(*o),
{
    push_dec(out, o.0 as u64);
    out.push('.');
    push_dec(out, o.1 as u64);
    out.push('.');
    push_dec(out, o.2 as u64);
    out.push('.');
    push_dec(out, o.3 as u64);
    proof {
        assert(final(out)@ =~= old(out)@ + fmt_ipv4(*o));
    }
}

fn push_join_hex(out: &mut Vec<char>, g: &Vec<u16>, start: usize, end: usize)
    requires
        start <= end <= g@.len(),
    ensures
        final(out)@ == old(out)@ + join_hex(g@.subrange(start as int, end as int)),
{
    let ghost base = old(out)@;
    let mut k: usize = start;
    while k < end
        invariant
            start <= k <= end <= g@.len(),
            out@ == base + join_hex(g@.subrange(start as int, k as int)),
        decreases end - k,
    {
        let ghost before = g@.subrange(start as int, k as int);
        let ghost after = g@.subrange(start as int, k + 1);
        proof {
            assert(after.drop_last() =~= before);
            assert(after.last() == g@[k as int]);
        }
        if k > start {
            out.push(':');
        }
        push_hex(out, g[k] as u64);
        k += 1;
        proof {
            if k - 1 > start {
                assert(out@ =~= base + join_hex(after));
            } else {
                assert(before.len() == 0);
                assert(join_hex(before) =~= Seq::<char>::empty());
                assert(out@ =~= base + join_hex(after));
            }
        }
    }
}

fn segments_vec(x: &Ipv6Segments) -> (r: Vec<u16>)
    ensures
        r@ == segs_of(*x),
{
    let mut v: Vec<u16> = Vec::new();
    v.push(x.0);
    v.push(x.1);
    v.push(x.2);
    v.push(x.3);
    v.push(x.4);
    v.push(x.5);
    v.push(x.6);
    v.push(x.7);
    proof {
        assert(v@ =~= segs_of(*x));
    }
    v
}

fn longest_zero_run(g: &Vec<u16>) -> (r: (usize, usize))
    ensures
        r.0 as int == zero_run(g@, 0, 0, 0, 0, 0).0,
        r.1 as int == zero_run(g@, 0, 0, 0, 0, 0).1,
        r.0 + r.1 <= g@.len(),
{
    let mut cs: usize = 0;
    let mut cl: usize = 0;
    let mut bs: usize = 0;
    let mut bl: usize = 0;
    let mut i: usize = 0;
    while i < g.len()
        invariant
            i <= g@.len(),
            cs + cl == i || cl == 0,
            cl <= i,
            bs + bl <= i,
            zero_run(g@, 0, 0, 0, 0, 0) == zero_run(g@, i as int, cs as int, cl as int, bs as int, bl as int),
        decreases g@.len() - i,
    {
        if g[i] == 0 {
            let ns = if cl == 0 {
                i
            } else {
                cs
            };
            if cl + 1 > bl {
                bs = ns;
                bl = cl + 1;
            }
            cs = ns;
            cl = cl + 1;
        } else {
            cs = 0;
            cl = 0;
        }
        i += 1;
    }
    (bs, bl)
}

fn push_ipv6(out: &mut Vec<char>, x: &Ipv6Segments)
    ensures
        final(out)@ == old(out)@ + fmt_ipv6(*x),
{
    if x.0 == 0 && x.1 == 0 && x.2 == 0 && x.3 == 0 && x.4 == 0 && x.5 == 0xffff {
        out.push(':');
        out.push(':');
        out.push('f');
        out.push('f');
        out.push('f');
        out.push('f');
        out.push(':');
        let o = Ipv4Octets((x.6 / 256) as u8, (x.6 % 256) as u8, (x.7 / 256) as u8, (x.7 % 256) as u8);
        push_ipv4(out, &o);
        proof {
            assert(final(out)@ =~= old(out)@ + fmt_ipv6(*x));
        }
    } else {
        let g = segments_vec(x);
        let (st, ln) = longest_zero_run(&g);
        if ln > 1 {
            push_join_hex(out, &g, 0, st);
            out.push(':');
            out.push(':');
            push_join_hex(out, &g, st + ln, 8);
        } else {
            push_join_hex(out, &g, 0, 8);
            proof {
                assert(g@.subrange(0, 8) =~= g@);
            }
        }
        proof {
            assert(final(out)@ =~= old(out)@ + fmt_ipv6(*x));
        }
    }
}

proof fn lemma_join_hex_writable(g: Seq<u16>)
    ensures
        forall|i: int| 0 <= i < join_hex(g).len() ==> writable(#[trigger] join_hex(g)[i]),
    decreases g.len(),
{
    if g.len() == 1 {
        lemma_hex_writable(g[0] as nat);
    } else if g.len() > 1 {
        lemma_join_hex_writable(g.drop_last());
        lemma_hex_writable(g.last() as nat);
        let a = join_hex(g.drop_last());
        let h = hex(g.last() as nat);
        assert forall|i: int| 0 <= i < join_hex(g).len() implies writable(#[trigger] join_hex(g)[i]) by {
            if i < a.len() {
                assert(join_hex(g)[i] == a[i]);
            } else if i > a.len() {
                assert(join_hex(g)[i] == h[i - a.len() - 1]);
            }
        }
    }
}

proof fn lemma_fmt_ipv4_writable(o: Ipv4Octets)
    ensures
        forall|i: int| 0 <= i < fmt_ipv4(o).len() ==> writable(#[trigger] fmt_ipv4(o)[i]),
{
    lemma_dec_writable(o.0 as nat);
    lemma_dec_writable(o.1 as nat);
    lemma_dec_writable(o.2 as nat);
    lemma_dec_writable(o.3 as nat);
    let f = fmt_ipv4(o);
    let a = dec(o.0 as nat);
    let b = dec(o.1 as nat);
    let c = dec(o.2 as nat);
    let d = dec(o.3 as nat);
    assert forall|i: int| 0 <= i < f.len() implies writable(#[trigger] f[i]) by {
        if i < a.len() {
            assert(f[i] == a[i]);
        } else if i == a.len() {
        } else if i < a.len() + 1 + b.len() {
            assert(f[i] == b[i - a.len() - 1]);
        } else if i == a.len() + 1 + b.len() {
        } else if i < a.len() + 2 + b.len() + c.len() {
            assert(f[i] == c[i - a.len() - 2 - b.len()]);
        } else if i == a.len() + 2 + b.len() + c.len() {
        } else {
            assert(f[i] == d[i - a.len() - 3 - b.len() - c.len()]);
        }
    }
}

proof fn lemma_fmt_address_writable(a: Address)
    ensures
        forall|i: int| 0 <= i < fmt_address(a).len() ==> writable(#[trigger] fmt_address(a)[i]),
{
    let f = fmt_address(a);
    match a {
        Address::V4 { ip, port } => {
            lemma_fmt_ipv4_writable(ip);
            lemma_dec_writable(port as nat);
            let x = fmt_ipv4(ip);
            let d = dec(port as nat);
            assert forall|i: int| 0 <= i < f.len() implies writable(#[trigger] f[i]) by {
                if i < x.len() {
                    assert(f[i] == x[i]);
                } else if i > x.len() {
                    assert(f[i] == d[i - x.len() - 1]);
                }
            }
        },
        Address::V6 { ip, port, .. } => {
            lemma_dec_writable(port as nat);
            let d = dec(port as nat);
            let v = fmt_ipv6(ip);
            assert forall|i: int| 0 <= i < v.len() implies writable(#[trigger] v[i]) by {
                if is_mapped(ip) {
                    lemma_fmt_ipv4_writable(embedded_v4(ip));
                    if i >= 7 {
                        assert(v[i] == fmt_ipv4(embedded_v4(ip))[i - 7]);
                    }
                } else {
                    let g = segs_of(ip);
                    let run = zero_run(g, 0, 0, 0, 0, 0);
                    if run.1 > 1 {
                        let l = join_hex(g.subrange(0, run.0));
                        let r = join_hex(g.subrange(run.0 + run.1, 8));
                        lemma_join_hex_writable(g.subrange(0, run.0));
                        lemma_join_hex_writable(g.subrange(run.0 + run.1, 8));
                        if i < l.len() {
                            assert(v[i] == l[i]);
                        } else if i >= l.len() + 2 {
                            assert(v[i] == r[i - l.len() - 2]);
                        }
                    } else {
                        lemma_join_hex_writable(g);
                    }
                }
            }
            assert forall|i: int| 0 <= i < f.len() implies writable(#[trigger] f[i]) by {
                if 1 <= i < 1 + v.len() {
                    assert(f[i] == v[i - 1]);
                } else if i >= v.len() + 3 {
                    assert(f[i] == d[i - v.len() - 3]);
                }
            }
        },
    }
}

proof fn lemma_digit_run_exact(s: Seq<char>, p: int, k: nat, radix: nat)
    requires
        0 <= p,
        p + k <= s.len(),
        forall|j: int| p <= j < p + k ==> (#[trigger] digit_value(s[j], radix)) is Some,
        p + k == s.len() || !(digit_value(s[p + k], radix) is Some),
    ensures
        digit_run(s, p, radix) == k,
    decreases k,
{
    if k > 0 {
        lemma_digit_run_exact(s, p + 1, (k - 1) as nat, radix);
    }
}

/// Reading a number where the decimal text of `n` stands, followed by a
/// non-digit or the end, gives `n`.
proof fn lemma_read_dec(s: Seq<char>, p: int, n: nat, max_digits: nat, max_value: nat)
    requires
        0 <= p,
        p + dec(n).len() <= s.len(),
        s.subrange(p, p + dec(n).len()) == dec(n),
        p + dec(n).len() == s.len() || !(digit_value(s[p + dec(n).len()], 10) is Some),
        n <= max_value,
        dec(n).len() <= max_digits,
    ensures
        read_number(s, p, 10, max_digits, false, max_value) == Some((n, p + dec(n).len())),
{
    reveal(read_number);
    lemma_dec_props(n);
    let k = dec(n).len();
    assert forall|j: int| p <= j < p + k implies (#[trigger] digit_value(s[j], 10)) is Some by {
        assert(s[j] == s.subrange(p, p + k)[j - p]);
    }
    lemma_digit_run_exact(s, p, k, 10);
    assert(s[p] == dec(n)[0]);
}

proof fn lemma_last_index_is(s: Seq<char>, c: char, k: int, upto: int)
    requires
        0 <= k < upto <= s.len(),
        s[k] == c,
        forall|j: int| k < j < upto ==> s[j] != c,
    ensures
        last_index(s, c, upto) == Some(k),
    decreases upto,
{
    if upto - 1 != k {
        lemma_last_index_is(s, c, k, upto - 1);
    }
}

/// The dotted-quad text of an IPv4 address, standing at `p` in `s` and
/// followed by a non-digit or the end, reads back as that address.
proof fn lemma_ipv4_text_at(s: Seq<char>, p: int, ip: Ipv4Octets)
    requires
        0 <= p,
        p + fmt_ipv4(ip).len() <= s.len(),
        s.subrange(p, p + fmt_ipv4(ip).len()) == fmt_ipv4(ip),
        p + fmt_ipv4(ip).len() == s.len() || !(digit_value(s[p + fmt_ipv4(ip).len()], 10) is Some),
    ensures
        read_ipv4(s, p) == Some((ip, p + fmt_ipv4(ip).len())),
{
    reveal(read_ipv4);
    let f = fmt_ipv4(ip);
    let a = dec(ip.0 as nat);
    let b = dec(ip.1 as nat);
    let c = dec(ip.2 as nat);
    let d = dec(ip.3 as nat);
    lemma_dec_props(ip.0 as nat);
    lemma_dec_props(ip.1 as nat);
    lemma_dec_props(ip.2 as nat);
    lemma_dec_props(ip.3 as nat);
    let p1 = p + a.len();
    let p2 = p1 + 1 + b.len();
    let p3 = p2 + 1 + c.len();
    let p4 = p3 + 1 + d.len();
    assert(f.len() == p4 - p);
    assert forall|j: int| p <= j < p4 implies s[j] == f[j - p] by {
        assert(s[j] == s.subrange(p, p4)[j - p]);
    }
    assert(s.subrange(p, p1) =~= a) by {
        assert forall|j: int| 0 <= j < a.len() implies s.subrange(p, p1)[j] == a[j] by {
            assert(f[j] == a[j]);
        }
    }
    assert(s.subrange(p1 + 1, p2) =~= b) by {
        assert forall|j: int| 0 <= j < b.len() implies s.subrange(p1 + 1, p2)[j] == b[j] by {
            assert(f[p1 - p + 1 + j] == b[j]);
        }
    }
    assert(s.subrange(p2 + 1, p3) =~= c) by {
        assert forall|j: int| 0 <= j < c.len() implies s.subrange(p2 + 1, p3)[j] == c[j] by {
            assert(f[p2 - p + 1 + j] == c[j]);
        }
    }
    assert(s.subrange(p3 + 1, p4) =~= d) by {
        assert forall|j: int| 0 <= j < d.len() implies s.subrange(p3 + 1, p4)[j] == d[j] by {
            assert(f[p3 - p + 1 + j] == d[j]);
        }
    }
    assert(s[p1] == f[p1 - p]);
    assert(s[p2] == f[p2 - p]);
    assert(s[p3] == f[p3 - p]);
    lemma_read_dec(s, p, ip.0 as nat, 3, 255);
    lemma_read_dec(s, p1 + 1, ip.1 as nat, 3, 255);
    lemma_read_dec(s, p2 + 1, ip.2 as nat, 3, 255);
    lemma_read_dec(s, p3 + 1, ip.3 as nat, 3, 255);
    assert(read_octet(s, p, true) == Some((ip.0 as nat, p1)));
    assert(read_octet(s, p1, false) == Some((ip.1 as nat, p2)));
    assert(read_octet(s, p2, false) == Some((ip.2 as nat, p3)));
    assert(read_octet(s, p3, false) == Some((ip.3 as nat, p4)));
}

/// The dotted-quad text of an IPv4 address reads back as that address, and
/// holds no `:` and no `[`.
pub proof fn lemma_ipv4_text_round_trip(ip: Ipv4Octets)
    ensures
        parse_ipv4(fmt_ipv4(ip)) == Some(ip),
        forall|i: int| 0 <= i < fmt_ipv4(ip).len() ==> (#[trigger] fmt_ipv4(ip)[i]) != ':' && fmt_ipv4(ip)[i]
            != '[' && fmt_ipv4(ip)[i] != ']',
{
    let f = fmt_ipv4(ip);
    assert(f.subrange(0, f.len() as int) =~= f);
    lemma_ipv4_text_at(f, 0, ip);
    lemma_fmt_ipv4_chars(ip);
}

/// The characters of a dotted quad are decimal digits and dots.
proof fn lemma_fmt_ipv4_chars(ip: Ipv4Octets)
    ensures
        forall|i: int|
            0 <= i < fmt_ipv4(ip).len() ==> (('0' <= #[trigger] fmt_ipv4(ip)[i] && fmt_ipv4(ip)[i] <= '9')
                || fmt_ipv4(ip)[i] == '.'),
{
    let f = fmt_ipv4(ip);
    let a = dec(ip.0 as nat);
    let b = dec(ip.1 as nat);
    let c = dec(ip.2 as nat);
    let d = dec(ip.3 as nat);
    lemma_dec_props(ip.0 as nat);
    lemma_dec_props(ip.1 as nat);
    lemma_dec_props(ip.2 as nat);
    lemma_dec_props(ip.3 as nat);
    let p1 = a.len() as int;
    let p2 = p1 + 1 + b.len();
    let p3 = p2 + 1 + c.len();
    assert forall|i: int| 0 <= i < f.len() implies (('0' <= #[trigger] f[i] && f[i] <= '9') || f[i] == '.') by {
        if i < p1 {
            assert(f[i] == a[i]);
        } else if p1 < i < p2 {
            assert(f[i] == b[i - p1 - 1]);
        } else if p2 < i < p3 {
            assert(f[i] == c[i - p2 - 1]);
        } else if p3 < i {
            assert(f[i] == d[i - p3 - 1]);
        }
    }
}

/// Formatting an IPv4 socket address and parsing the text gives the address back.
pub proof fn lemma_v4_round_trip(ip: Ipv4Octets, port: u16)
    ensures
        parse_address(fmt_address(Address::V4 { ip, port })) == Ok::<Address, AddressParseError>(
            Address::V4 { ip, port },
        ),
{
    let f = fmt_ipv4(ip);
    let d = dec(port as nat);
    let s = fmt_address(Address::V4 { ip, port });
    lemma_ipv4_text_round_trip(ip);
    lemma_dec_props(port as nat);
    lemma_dec_props(ip.0 as nat);
    let k = f.len() as int;
    assert(s =~= f + seq![':'] + d);
    assert(s[0] == f[0]);
    assert(s[k] == ':');
    assert forall|j: int| k < j < s.len() implies s[j] != ':' by {
        assert(s[j] == d[j - k - 1]);
    }
    lemma_last_index_is(s, ':', k, s.len() as int);
    assert(s.subrange(0, k) =~= f);
    lemma_first_index(f, ':', 0);
    assert(s.subrange(k + 1, s.len() as int) =~= d);
    assert(d[0] != '+');
    assert(all_digits(d, 10));
}

/// Whether `c` is a hexadecimal digit.
pub open spec fn is_hexdig(c: char) -> bool {
    digit_value(c, 16) is Some
}

/// The text read for groups `g` at group index `i`: a `:` before them
/// unless they start the address.
pub open spec fn group_text(g: Seq<u16>, first: bool) -> Seq<char> {
    if g.len() == 0 {
        Seq::empty()
    } else if first {
        join_hex(g)
    } else {
        seq![':'] + join_hex(g)
    }
}

/// No group can be read at `q`: a group needs a `:` (unless it comes first)
/// and then a hex digit.
pub open spec fn next_group_fails(s: Seq<char>, q: int, first: bool) -> bool {
    if first {
        q >= s.len() || !is_hexdig(s[q])
    } else {
        q >= s.len() || s[q] != ':' || q + 1 >= s.len() || !is_hexdig(s[q + 1])
    }
}

proof fn lemma_read_hex(s: Seq<char>, p: int, n: nat)
    requires
        0 <= p,
        n <= 0xffff,
        p + hex(n).len() <= s.len(),
        s.subrange(p, p + hex(n).len()) == hex(n),
        p + hex(n).len() == s.len() || !is_hexdig(s[p + hex(n).len()]),
    ensures
        read_number(s, p, 16, 4, true, 0xffff) == Some((n, p + hex(n).len())),
{
    reveal(read_number);
    lemma_hex_props(n);
    let k = hex(n).len();
    assert forall|j: int| p <= j < p + k implies (#[trigger] digit_value(s[j], 16)) is Some by {
        assert(s[j] == s.subrange(p, p + k)[j - p]);
    }
    lemma_digit_run_exact(s, p, k, 16);
}

proof fn lemma_no_number_at(s: Seq<char>, q: int, radix: nat, max_digits: nat, allow: bool, max_value: nat)
    requires
        0 <= q,
        q >= s.len() || !(digit_value(s[q], radix) is Some),
    ensures
        read_number(s, q, radix, max_digits, allow, max_value) is None,
{
    reveal(read_number);
}

proof fn lemma_v4_fails(s: Seq<char>, p: int)
    requires
        0 <= p <= s.len(),
        forall|j: int| p <= j < s.len() ==> s[j] != '.',
    ensures
        read_ipv4(s, p) is None,
{
    reveal(read_ipv4);
    lemma_read_number_bounds(s, p, 10, 3, false, 255);
}

proof fn lemma_join_cons(g: Seq<u16>)
    requires
        g.len() >= 2,
    ensures
        join_hex(g) == hex(g[0] as nat) + seq![':'] + join_hex(g.skip(1)),
    decreases g.len(),
{
    if g.len() == 2 {
        assert(g.drop_last() =~= seq![g[0]]);
        assert(g.skip(1) =~= seq![g[1]]);
        assert(join_hex(g.skip(1)) == hex(g[1] as nat));
        assert(join_hex(g.drop_last()) == hex(g[0] as nat));
        assert(g.last() == g[1]);
        assert(join_hex(g) =~= hex(g[0] as nat) + seq![':'] + join_hex(g.skip(1)));
    } else {
        let d = g.drop_last();
        lemma_join_cons(d);
        assert(d.skip(1) =~= g.skip(1).drop_last());
        assert(g.skip(1).last() == g.last());
        assert(join_hex(g) =~= hex(g[0] as nat) + seq![':'] + join_hex(g.skip(1)));
    }
}

proof fn lemma_join_chars(g: Seq<u16>)
    ensures
        forall|i: int|
            0 <= i < join_hex(g).len() ==> is_hexdig(#[trigger] join_hex(g)[i]) || join_hex(g)[i] == ':',
        forall|i: int| 0 <= i < join_hex(g).len() ==> (#[trigger] join_hex(g)[i]) != '.' && join_hex(g)[i] != ']',
        g.len() >= 1 ==> join_hex(g).len() >= 1 && is_hexdig(join_hex(g)[0]),
    decreases g.len(),
{
    if g.len() == 1 {
        lemma_hex_props(g[0] as nat);
    } else if g.len() > 1 {
        lemma_join_chars(g.drop_last());
        lemma_hex_props(g.last() as nat);
        let a = join_hex(g.drop_last());
        let h = hex(g.last() as nat);
        assert forall|i: int| 0 <= i < join_hex(g).len() implies (is_hexdig(#[trigger] join_hex(g)[i])
            || join_hex(g)[i] == ':') && join_hex(g)[i] != '.' && join_hex(g)[i] != ']' by {
            if i < a.len() {
                assert(join_hex(g)[i] == a[i]);
            } else if i > a.len() {
                assert(join_hex(g)[i] == h[i - a.len() - 1]);
            }
        }
        assert(join_hex(g)[0] == a[0]);
    }
}

proof fn lemma_read_groups_text(s: Seq<char>, p: int, i: nat, limit: nat, g: Seq<u16>)
    requires
        0 <= p,
        i <= limit,
        g.len() <= limit - i,
        p + group_text(g, i == 0).len() <= s.len(),
        s.subrange(p, p + group_text(g, i == 0).len()) == group_text(g, i == 0),
        forall|j: int| p <= j < s.len() ==> s[j] != '.',
        p + group_text(g, i == 0).len() >= s.len() || !is_hexdig(s[p + group_text(g, i == 0).len()]),
        g.len() == limit - i || next_group_fails(s, p + group_text(g, i == 0).len(), i + g.len() == 0),
    ensures
        read_groups(s, p, i, limit) == (g, false, p + group_text(g, i == 0).len()),
    decreases g.len(),
{
    let t = group_text(g, i == 0);
    if g.len() == 0 {
        if i < limit {
            if i + 1 < limit {
                if let Some(q) = read_sep(s, p, ':', i == 0) {
                    lemma_v4_fails(s, q);
                }
            }
            if i == 0 {
                lemma_no_number_at(s, p, 16, 4, true, 0xffff);
            } else if p < s.len() && s[p] == ':' {
                lemma_no_number_at(s, p + 1, 16, 4, true, 0xffff);
            }
        }
        assert(read_groups(s, p, i, limit) =~= (g, false, p));
    } else {
        let first = i == 0;
        let q = if first {
            p
        } else {
            p + 1
        };
        let h = hex(g[0] as nat);
        lemma_hex_props(g[0] as nat);
        lemma_join_chars(g);
        if !first {
            assert(s[p] == t[0]);
        }
        assert(read_sep(s, p, ':', first) == Some(q));
        let rest = g.skip(1);
        let q2 = q + h.len();
        if g.len() >= 2 {
            lemma_join_cons(g);
        } else {
            assert(join_hex(g) == h);
        }
        assert forall|j: int| 0 <= j < h.len() implies s.subrange(q, q2)[j] == h[j] by {
            assert(s.subrange(q, q2)[j] == s[q + j]);
            assert(s[q + j] == t[q + j - p]);
            if g.len() >= 2 {
                assert(join_hex(g)[j] == h[j]);
            }
        }
        assert(s.subrange(q, q2) =~= h);
        if g.len() >= 2 {
            assert(s[q2] == t[q2 - p]);
            assert(t[q2 - p] == ':');
        }
        lemma_read_hex(s, q, g[0] as nat);
        if i + 1 < limit {
            lemma_v4_fails(s, q);
        }
        let t2 = group_text(rest, false);
        assert(p + t.len() == q2 + t2.len());
        assert forall|j: int| 0 <= j < t2.len() implies s.subrange(q2, q2 + t2.len())[j] == t2[j] by {
            assert(s.subrange(q2, q2 + t2.len())[j] == s[q2 + j]);
            assert(s[q2 + j] == t[q2 + j - p]);
        }
        assert(s.subrange(q2, q2 + t2.len()) =~= t2);
        lemma_read_groups_text(s, q2, i + 1, limit, rest);
        assert(seq![g[0] as nat as u16] + rest =~= g);
    }
}

proof fn lemma_zero_run(g: Seq<u16>, i: int, cs: int, cl: int, bs: int, bl: int)
    requires
        0 <= i <= g.len(),
        0 <= bl,
        0 <= cl,
        0 <= bs,
        bl > 0 ==> bs + bl <= i && forall|k: int| bs <= k < bs + bl ==> g[k] == 0,
        cl > 0 ==> 0 <= cs && cs + cl == i && forall|k: int| cs <= k < i ==> g[k] == 0,
    ensures
        zero_run(g, i, cs, cl, bs, bl).1 >= bl,
        zero_run(g, i, cs, cl, bs, bl).0 >= 0,
        zero_run(g, i, cs, cl, bs, bl).1 > 0 ==> zero_run(g, i, cs, cl, bs, bl).0 + zero_run(
            g,
            i,
            cs,
            cl,
            bs,
            bl,
        ).1 <= g.len() && forall|k: int|
            zero_run(g, i, cs, cl, bs, bl).0 <= k < zero_run(g, i, cs, cl, bs, bl).0 + zero_run(
                g,
                i,
                cs,
                cl,
                bs,
                bl,
            ).1 ==> g[k] == 0,
    decreases g.len() - i,
{
    if i < g.len() {
        if g[i] == 0 {
            let ns = if cl == 0 {
                i
            } else {
                cs
            };
            if cl + 1 > bl {
                lemma_zero_run(g, i + 1, ns, cl + 1, ns, cl + 1);
            } else {
                lemma_zero_run(g, i + 1, ns, cl + 1, bs, bl);
            }
        } else {
            lemma_zero_run(g, i + 1, 0, 0, bs, bl);
        }
    }
}

proof fn lemma_ipv6_mapped_round_trip(x: Ipv6Segments)
    requires
        is_mapped(x),
    ensures
        parse_ipv6(fmt_ipv6(x)) == Some(segs_of(x)),
        forall|i: int| 0 <= i < fmt_ipv6(x).len() ==> (#[trigger] fmt_ipv6(x)[i]) != ']',
{
    let s = fmt_ipv6(x);
    let g = segs_of(x);
    let o = embedded_v4(x);
    let f = fmt_ipv4(o);
    assert(s =~= seq![':', ':', 'f', 'f', 'f', 'f', ':'] + f);
    lemma_fmt_ipv4_chars(o);
    lemma_dec_props(o.0 as nat);
    assert(read_ipv4(s, 0) is None) by {
        reveal(read_ipv4);
        lemma_no_number_at(s, 0, 10, 3, false, 255);
    }
    lemma_no_number_at(s, 0, 16, 4, true, 0xffff);
    assert(read_groups(s, 0, 0, 8) =~= (Seq::<u16>::empty(), false, 0int));
    assert(read_ipv4(s, 2) is None) by {
        reveal(read_ipv4);
        lemma_no_number_at(s, 2, 10, 3, false, 255);
    }
    assert(hex(65535) =~= seq!['f', 'f', 'f', 'f']) by {
        reveal_with_fuel(hex, 5);
    }
    assert(s.subrange(2, 6) =~= hex(65535));
    lemma_read_hex(s, 2, 65535);
    assert(s.subrange(7, 7 + f.len() as int) =~= f);
    lemma_ipv4_text_at(s, 7, o);
    assert(read_groups(s, 6, 1, 7) == (v4_segments(o), true, s.len() as int));
    assert(read_groups(s, 2, 0, 7) =~= (seq![65535u16] + v4_segments(o), true, s.len() as int));
    assert(v4_segments(o) =~= seq![x.6, x.7]) by {
        assert((x.6 / 256) * 256 + x.6 % 256 == x.6);
        assert((x.7 / 256) * 256 + x.7 % 256 == x.7);
    }
    assert(Seq::<u16>::empty() + Seq::new(5, |k: int| 0u16) + (seq![65535u16] + v4_segments(o)) =~= g);
    assert forall|i: int| 0 <= i < s.len() implies (#[trigger] s[i]) != ']' by {
        if i >= 7 {
            assert(s[i] == f[i - 7]);
        }
    }
}

#[verifier::rlimit(50)]
proof fn lemma_ipv6_compressed_round_trip(x: Ipv6Segments)
    requires
        !is_mapped(x),
        zero_run(segs_of(x), 0, 0, 0, 0, 0).1 > 1,
    ensures
        parse_ipv6(fmt_ipv6(x)) == Some(segs_of(x)),
        forall|i: int| 0 <= i < fmt_ipv6(x).len() ==> (#[trigger] fmt_ipv6(x)[i]) != ']',
{
    let s = fmt_ipv6(x);
    let g = segs_of(x);
    let run = zero_run(g, 0, 0, 0, 0, 0);
    lemma_zero_run(g, 0, 0, 0, 0, 0);
    let st = run.0;
    let ln = run.1;
    let l = g.subrange(0, st);
    let r = g.subrange(st + ln, 8);
    let jl = join_hex(l);
    let jr = join_hex(r);
    lemma_join_chars(l);
    lemma_join_chars(r);
    assert(s =~= jl + seq![':', ':'] + jr);
    assert forall|j: int| 0 <= j < s.len() implies s[j] != '.' && s[j] != ']' by {
        if j < jl.len() {
            assert(s[j] == jl[j]);
        } else if j >= jl.len() + 2 {
            assert(s[j] == jr[j - jl.len() - 2]);
        }
    }
    assert(group_text(l, true) == jl);
    assert(s.subrange(0, jl.len() as int) =~= jl);
    lemma_read_groups_text(s, 0, 0, 8, l);
    let q = jl.len() as int;
    assert(s[q] == ':' && s[q + 1] == ':');
    assert(group_text(r, true) == jr);
    assert(s.subrange(q + 2, q + 2 + jr.len()) =~= jr);
    lemma_read_groups_text(s, q + 2, 0, (8 - (l.len() + 1)) as nat, r);
    assert(l + Seq::new((8 - l.len() - r.len()) as nat, |k: int| 0u16) + r =~= g);
}

proof fn lemma_ipv6_plain_round_trip(x: Ipv6Segments)
    requires
        !is_mapped(x),
        zero_run(segs_of(x), 0, 0, 0, 0, 0).1 <= 1,
    ensures
        parse_ipv6(fmt_ipv6(x)) == Some(segs_of(x)),
        forall|i: int| 0 <= i < fmt_ipv6(x).len() ==> (#[trigger] fmt_ipv6(x)[i]) != ']',
{
    let s = fmt_ipv6(x);
    let g = segs_of(x);
    lemma_join_chars(g);
    assert(s == join_hex(g));
    assert(group_text(g, true) == s);
    assert(s.subrange(0, s.len() as int) =~= s);
    lemma_read_groups_text(s, 0, 0, 8, g);
}

/// The text of an IPv6 address reads back as its segments.
pub proof fn lemma_ipv6_text_round_trip(x: Ipv6Segments)
    ensures
        parse_ipv6(fmt_ipv6(x)) == Some(segs_of(x)),
        forall|i: int| 0 <= i < fmt_ipv6(x).len() ==> (#[trigger] fmt_ipv6(x)[i]) != ']',
{
    if is_mapped(x) {
        lemma_ipv6_mapped_round_trip(x);
    } else if zero_run(segs_of(x), 0, 0, 0, 0, 0).1 > 1 {
        lemma_ipv6_compressed_round_trip(x);
    } else {
        lemma_ipv6_plain_round_trip(x);
    }
}

proof fn lemma_first_index_is(s: Seq<char>, c: char, from: int, k: int)
    requires
        0 <= from <= k < s.len(),
        s[k] == c,
        forall|j: int| from <= j < k ==> s[j] != c,
    ensures
        first_index(s, c, from) == Some(k),
    decreases k - from,
{
    if from < k {
        lemma_first_index_is(s, c, from + 1, k);
    }
}

/// Formatting an IPv6 socket address without flow label or scope id, and
/// parsing the text, gives the address back.
pub proof fn lemma_v6_round_trip(ip: Ipv6Segments, port: u16)
    ensures
        parse_address(fmt_address(Address::V6 { ip, port, flowinfo: 0, scope_id: 0 })) == Ok::<
            Address,
            AddressParseError,
        >(Address::V6 { ip, port, flowinfo: 0, scope_id: 0 }),
{
    let v = fmt_ipv6(ip);
    let d = dec(port as nat);
    let s = fmt_address(Address::V6 { ip, port, flowinfo: 0, scope_id: 0 });
    lemma_ipv6_text_round_trip(ip);
    lemma_dec_props(port as nat);
    let c = 1 + v.len() as int;
    assert(s =~= seq!['['] + v + seq![']', ':'] + d);
    assert forall|j: int| 1 <= j < c implies s[j] != ']' by {
        assert(s[j] == v[j - 1]);
    }
    lemma_first_index_is(s, ']', 0, c);
    assert(s.subrange(1, c) =~= v);
    let rest = s.subrange(c + 1, s.len() as int);
    assert(rest =~= seq![':'] + d);
    assert(rest.skip(1) =~= d);
    assert(d[0] != '+');
    assert(all_digits(d, 10));
    assert(segs_from(segs_of(ip)) == ip);
}

/// Formatting an address and parsing the text gives it back, for every
/// address the text can carry: any IPv4 address, and any IPv6 address
/// without flow label or scope id.
pub proof fn lemma_address_round_trip(a: Address)
    requires
        a matches Address::V6 { flowinfo, scope_id, .. } ==> flowinfo == 0 && scope_id == 0,
    ensures
        parse_address(fmt_address(a)) == Ok::<Address, AddressParseError>(a),
{
    match a {
        Address::V4 { ip, port } => lemma_v4_round_trip(ip, port),
        Address::V6 { ip, port, .. } => lemma_v6_round_trip(ip, port),
    }
}

} // verus!
