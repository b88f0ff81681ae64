use crate::text::{dec, lemma_dec_writable, push_dec, text_of, writable};
use vstd::prelude::*;
use vstd::string::*;

verus! {

pub const KB: u64 = 1024;
pub const MB: u64 = 1048576;
pub const GB: u64 = 1073741824;

/// `bytes / unit` in hundredths, rounded to nearest with ties to even.
pub open spec fn hundredths(bytes: nat, unit: nat) -> nat
    recommends
        unit > 0,
{
    let q = bytes * 100 / unit;
    let r = bytes * 100 % unit;
    if 2 * r > unit || (2 * r == unit && q % 2 == 1) {
        q + 1
    } else {
        q
    }
}

/// A count of hundredths written with two decimal places.
pub open spec fn two_places(q: nat) -> Seq<char> {
    dec(q / 100) + seq!['.', crate::text::digit_char((q % 100) / 10), crate::text::digit_char(q % 10)]
}

/// A byte count for people: bytes below 1 KB, else KB, MB or GB (units of
/// 1024) with two decimals.
pub open spec fn human_bytes(bytes: u64) -> Seq<char> {
    if bytes >= GB {
        two_places(hundredths(bytes as nat, GB as nat)) + seq![' ', 'G', 'B']
    } else if bytes >= MB {
        two_places(hundredths(bytes as nat, MB as nat)) + seq![' ', 'M', 'B']
    } else if bytes >= KB {
        two_places(hundredths(bytes as nat, KB as nat)) + seq![' ', 'K', 'B']
    } else {
        dec(bytes as nat) + seq![' ', 'B']
    }
}

fn push_two_places(out: &mut Vec<char>, bytes: u64, unit: u64)
    requires
        unit > 0,
    ensures
        final(out)@ == old(out)@ + two_places(hundredths(bytes as nat, unit as nat)),
{
    let scaled: u128 = (bytes as u128) * 100;
    let q0: u128 = scaled / (unit as u128);
    let r: u128 = scaled % (unit as u128);
    let q: u128 = if 2 * r > unit as u128 || (2 * r == unit as u128 && q0 % 2 == 1) {
        q0 + 1
    } else {
        q0
    };
    proof {
        assert(q0 <= scaled) by (nonlinear_arith)
            requires q0 == scaled / (unit as u128), unit > 0;
        assert(q == hundredths(bytes as nat, unit as nat));
    }
    push_dec(out, (q / 100) as u64);
    out.push('.');
    out.push(if (q % 100) / 10 < 10 { (((q % 100) / 10) as u8 + 48) as char } else { '0' });
    out.push(((q % 10) as u8 + 48) as char);
    proof {
        assert(final(out)@ =~= old(out)@ + two_places(q as nat));
    }
}

/// Formats a byte count; see [`human_bytes`].
pub fn format_bytes(bytes: u64) -> (r: String)
    ensures
        r@ == human_bytes(bytes),
{
    let mut cs: Vec<char> = Vec::new();
    if bytes >= GB {
        push_two_places(&mut cs, bytes, GB);
        cs.push(' ');
        cs.push('G');
        cs.push('B');
    } else if bytes >= MB {
        push_two_places(&mut cs, bytes, MB);
        cs.push(' ');
        cs.push('M');
        cs.push('B');
    } else if bytes >= KB {
        push_two_places(&mut cs, bytes, KB);
        cs.push(' ');
        cs.push('K');
        cs.push('B');
    } else {
        push_dec(&mut cs, bytes);
        cs.push(' ');
        cs.push('B');
    }
    proof {
        let h = if bytes >= GB {
            hundredths(bytes as nat, GB as nat)
        } else if bytes >= MB {
            hundredths(bytes as nat, MB as nat)
        } else {
            hundredths(bytes as nat, KB as nat)
        };
        lemma_dec_writable(h / 100);
        lemma_dec_writable(bytes as nat);
        assert(cs@ =~= human_bytes(bytes));
        assert forall|i: int| 0 <= i < cs@.len() implies writable(#[trigger] cs@[i]) by {
            if bytes >= KB {
                let d = dec(h / 100);
                if i < d.len() {
                    assert(cs@[i] == d[i]);
                }
            } else {
                let d = dec(bytes as nat);
                if i < d.len() {
                    assert(cs@[i] == d[i]);
                }
            }
        }
    }
    text_of(&cs)
}

/// Traffic counters: bytes received and sent per protocol, and the number of
/// live TCP connections and UDP sessions. Byte counters never decrease.
#[derive(Clone, Copy, Debug, Default)]
pub struct TrafficStats {
    pub tcp_bytes_received: u64,
    pub tcp_bytes_sent: u64,
    pub udp_bytes_received: u64,
    pub udp_bytes_sent: u64,
    pub tcp_connections: u64,
    pub udp_sessions: u64,
}

/// `a + b`, or the largest value if that does not fit.
pub open spec fn sat_add(a: u64, b: u64) -> u64 {
    if a + b <= u64::MAX {
        (a + b) as u64
    } else {
        u64::MAX
    }
}

/// `a - b`, or zero below zero.
pub open spec fn sat_sub(a: u64, b: u64) -> u64 {
    if a >= b {
        (a - b) as u64
    } else {
        0
    }
}

impl TrafficStats {
    pub fn new() -> (r: Self)
        ensures
            r == (TrafficStats {
                tcp_bytes_received: 0,
                tcp_bytes_sent: 0,
                udp_bytes_received: 0,
                udp_bytes_sent: 0,
                tcp_connections: 0,
                udp_sessions: 0,
            }),
    {
        TrafficStats {
            tcp_bytes_received: 0,
            tcp_bytes_sent: 0,
            udp_bytes_received: 0,
            udp_bytes_sent: 0,
            tcp_connections: 0,
            udp_sessions: 0,
        }
    }

    pub fn add_tcp_received(&mut self, bytes: usize)
        ensures
            *final(self) == (TrafficStats {
                tcp_bytes_received: sat_add(old(self).tcp_bytes_received, bytes as u64),
                ..*old(self)
            }),
    {
        self.tcp_bytes_received = self.tcp_bytes_received.saturating_add(bytes as u64);
    }

    pub fn add_tcp_sent(&mut self, bytes: usize)
        ensures
            *final(self) == (TrafficStats { tcp_bytes_sent: sat_add(old(self).tcp_bytes_sent, bytes as u64), ..*old(self) }),
    {
        self.tcp_bytes_sent = self.tcp_bytes_sent.saturating_add(bytes as u64);
    }

    pub fn add_udp_received(&mut self, bytes: usize)
        ensures
            *final(self) == (TrafficStats {
                udp_bytes_received: sat_add(old(self).udp_bytes_received, bytes as u64),
                ..*old(self)
            }),
    {
        self.udp_bytes_received = self.udp_bytes_received.saturating_add(bytes as u64);
    }

    pub fn add_udp_sent(&mut self, bytes: usize)
        ensures
            *final(self) == (TrafficStats { udp_bytes_sent: sat_add(old(self).udp_bytes_sent, bytes as u64), ..*old(self) }),
    {
        self.udp_bytes_sent = self.udp_bytes_sent.saturating_add(bytes as u64);
    }

    pub fn inc_tcp_connections(&mut self)
        ensures
            *final(self) == (TrafficStats { tcp_connections: sat_add(old(self).tcp_connections, 1), ..*old(self) }),
    {
        self.tcp_connections = self.tcp_connections.saturating_add(1);
    }

    pub fn dec_tcp_connections(&mut self)
        ensures
            *final(self) == (TrafficStats { tcp_connections: sat_sub(old(self).tcp_connections, 1), ..*old(self) }),
    {
        self.tcp_connections = self.tcp_connections.saturating_sub(1);
    }

    pub fn inc_udp_sessions(&mut self)
        ensures
            *final(self) == (TrafficStats { udp_sessions: sat_add(old(self).udp_sessions, 1), ..*old(self) }),
    {
        self.udp_sessions = self.udp_sessions.saturating_add(1);
    }

    pub fn dec_udp_sessions(&mut self)
        ensures
            *final(self) == (TrafficStats { udp_sessions: sat_sub(old(self).udp_sessions, 1), ..*old(self) }),
    {
        self.udp_sessions = self.udp_sessions.saturating_sub(1);
    }

    /// `TCP: rx/tx, UDP: rx/tx` with the byte counters formatted for people.
    pub fn get_stats_string(&self) -> (r: String)
        ensures
            r@ == "TCP: "@ + human_bytes(self.tcp_bytes_received) + "/"@ + human_bytes(self.tcp_bytes_sent)
                + ", UDP: "@ + human_bytes(self.udp_bytes_received) + "/"@ + human_bytes(self.udp_bytes_sent),
    {
        let mut r = String::new();
        r.append("TCP: ");
        r.append(format_bytes(self.tcp_bytes_received).as_str());
        r.append("/");
        r.append(format_bytes(self.tcp_bytes_sent).as_str());
        r.append(", UDP: ");
        r.append(format_bytes(self.udp_bytes_received).as_str());
        r.append("/");
        r.append(format_bytes(self.udp_bytes_sent).as_str());
        proof {
            assert(r@ =~= "TCP: "@ + human_bytes(self.tcp_bytes_received) + "/"@ + human_bytes(
                self.tcp_bytes_sent,
            ) + ", UDP: "@ + human_bytes(self.udp_bytes_received) + "/"@ + human_bytes(
                self.udp_bytes_sent,
            ));
        }
        r
    }
}

} // verus!
