use crate::address::{Ipv4Octets, Ipv6Segments};
use crate::text::{digit_value, value_of};
use vstd::prelude::*;

verus! {

/// How many characters of `s` from `pos` on are digits in `radix`.
pub open spec fn digit_run(s: Seq<char>, pos: int, radix: nat) -> nat
    decreases s.len() - pos,
{
    if 0 <= pos < s.len() && digit_value(s[pos], radix) is Some {
        1 + digit_run(s, pos + 1, radix)
    } else {
        0
    }
}

/// Reads a number at `pos` the way the standard address parser does: every
/// digit that follows is taken, and the read fails with no digit, more than
/// `max_digits` digits, a value above `max_value`, or (without
/// `allow_zero_prefix`) a leading zero followed by more digits. Gives the
/// value and the position after it.
#[verifier::opaque]
pub open spec fn read_number(
    s: Seq<char>,
    pos: int,
    radix: nat,
    max_digits: nat,
    allow_zero_prefix: bool,
    max_value: nat,
) -> Option<(nat, int)> {
    let n = digit_run(s, pos, radix);
    let v = value_of(s.subrange(pos, pos + n), radix);
    if n == 0 || n > max_digits || v > max_value || (!allow_zero_prefix && s[pos] == '0' && n > 1) {
        None
    } else {
        Some((v, pos + n))
    }
}

/// Reads separator `sep` at `pos` unless this is the first item.
pub open spec fn read_sep(s: Seq<char>, pos: int, sep: char, first: bool) -> Option<int> {
    if first {
        Some(pos)
    } else if 0 <= pos < s.len() && s[pos] == sep {
        Some(pos + 1)
    } else {
        None
    }
}

/// Reads a decimal octet, preceded by `.` unless it is the first.
pub open spec fn read_octet(s: Seq<char>, pos: int, first: bool) -> Option<(nat, int)> {
    match read_sep(s, pos, '.', first) {
        Some(p) => read_number(s, p, 10, 3, false, 255),
        None => None,
    }
}

/// Reads a dotted-quad IPv4 address at `pos`.
#[verifier::opaque]
pub open spec fn read_ipv4(s: Seq<char>, pos: int) -> Option<(Ipv4Octets, int)> {
    match read_octet(s, pos, true) {
        None => None,
        Some((a, p1)) => match read_octet(s, p1, false) {
            None => None,
            Some((b, p2)) => match read_octet(s, p2, false) {
                None => None,
                Some((c, p3)) => match read_octet(s, p3, false) {
                    None => None,
                    Some((d, p4)) => Some((Ipv4Octets(a as u8, b as u8, c as u8, d as u8), p4)),
                },
            },
        },
    }
}

/// The whole of `s` as an IPv4 address.
pub open spec fn parse_ipv4(s: Seq<char>) -> Option<Ipv4Octets> {
    match read_ipv4(s, 0) {
        Some((o, p)) => if p == s.len() {
            Some(o)
        } else {
            None
        },
        None => None,
    }
}

/// The two segments that an embedded IPv4 address fills.
pub open spec fn v4_segments(o: Ipv4Octets) -> Seq<u16> {
    seq![(o.0 * 256 + o.1) as u16, (o.2 * 256 + o.3) as u16]
}

/// Reads up to `limit - i` colon-separated IPv6 groups at `pos` (group `i`
/// being the first of them when `i` is 0), where an embedded IPv4 address
/// may stand for the last two. Gives the groups, whether an IPv4 address
/// ended them, and the position after them; a group that cannot be read
/// ends the list without consuming anything.
pub open spec fn read_groups(s: Seq<char>, pos: int, i: nat, limit: nat) -> (Seq<u16>, bool, int)
    decreases limit - i,
{
    if i >= limit {
        (Seq::empty(), false, pos)
    } else {
        let v4 = if i + 1 < limit {
            match read_sep(s, pos, ':', i == 0) {
                Some(p) => read_ipv4(s, p),
                None => None,
            }
        } else {
            None
        };
        match v4 {
            Some((o, p)) => (v4_segments(o), true, p),
            None => match read_sep(s, pos, ':', i == 0) {
                None => (Seq::empty(), false, pos),
                Some(p) => match read_number(s, p, 16, 4, true, 0xffff) {
                    None => (Seq::empty(), false, pos),
                    Some((g, q)) => {
                        let rest = read_groups(s, q, i + 1, limit);
                        (seq![g as u16] + rest.0, rest.1, rest.2)
                    },
                },
            },
        }
    }
}

/// The segments of an IPv6 address text: eight groups, or fewer around one
/// `::` that stands for at least one zero group.
pub open spec fn parse_ipv6(s: Seq<char>) -> Option<Seq<u16>> {
    let head = read_groups(s, 0, 0, 8);
    if head.0.len() == 8 {
        if head.2 == s.len() {
            Some(head.0)
        } else {
            None
        }
    } else if head.1 {
        None
    } else if 0 <= head.2 && head.2 + 1 < s.len() && s[head.2] == ':' && s[head.2 + 1] == ':' {
        let limit = (8 - (head.0.len() + 1)) as nat;
        let tail = read_groups(s, head.2 + 2, 0, limit);
        if tail.2 == s.len() {
            Some(head.0 + Seq::new((8 - head.0.len() - tail.0.len()) as nat, |k: int| 0u16) + tail.0)
        } else {
            None
        }
    } else {
        None
    }
}

/// Counts the digits at `pos`.
pub fn run_len(s: &Vec<char>, pos: usize, radix: u32) -> (n: usize)
    requires
        pos <= s@.len(),
        radix == 10 || radix == 16,
    ensures
        n == digit_run(s@, pos as int, radix as nat),
        pos + n <= s@.len(),
        forall|k: int| pos <= k < pos + n ==> digit_value(#[trigger] s@[k], radix as nat) is Some,
{
    let mut i: usize = pos;
    while i < s.len() && is_digit(s[i], radix)
        invariant
            pos <= i <= s@.len(),
            radix == 10 || radix == 16,
            digit_run(s@, pos as int, radix as nat) == (i - pos) + digit_run(s@, i as int, radix as nat),
            forall|k: int| pos <= k < i ==> digit_value(#[trigger] s@[k], radix as nat) is Some,
        decreases s@.len() - i,
    {
        i += 1;
    }
    i - pos
}

fn is_digit(c: char, radix: u32) -> (r: bool)
    requires
        radix == 10 || radix == 16,
    ensures
        r == digit_value(c, radix as nat) is Some,
{
    if '0' <= c && c <= '9' {
        true
    } else if radix == 16 && (('a' <= c && c <= 'f') || ('A' <= c && c <= 'F')) {
        true
    } else {
        false
    }
}

fn digit_val(c: char, radix: u32) -> (v: u32)
    requires
        radix == 10 || radix == 16,
        digit_value(c, radix as nat) is Some,
    ensures
        Some(v as nat) == digit_value(c, radix as nat),
        v < radix,
{
    if '0' <= c && c <= '9' {
        c as u32 - 48
    } else if 'a' <= c && c <= 'f' {
        c as u32 - 87
    } else {
        c as u32 - 55
    }
}

/// Computes [`read_number`].
pub fn read_number_exec(
    s: &Vec<char>,
    pos: usize,
    radix: u32,
    max_digits: usize,
    allow_zero_prefix: bool,
    max_value: u32,
) -> (r: Option<(u32, usize)>)
    requires
        pos <= s@.len(),
        radix == 10 || radix == 16,
        max_digits <= 4,
    ensures
        match read_number(s@, pos as int, radix as nat, max_digits as nat, allow_zero_prefix, max_value as nat) {
            Some((v, p)) => r == Some((v as u32, p as usize)),
            None => r is None,
        },
{
    proof {
        reveal(read_number);
    }
    let len = s.len();
    let n = run_len(s, pos, radix);
    if n == 0 || n > max_digits {
        return None;
    }
    let mut v: u32 = 0;
    let mut i: usize = 0;
    let ghost mut bound: nat = 1;
    while i < n
        invariant
            n <= max_digits <= 4,
            pos + n <= s@.len(),
            s@.len() == len,
            radix == 10 || radix == 16,
            i <= n,
            v as nat == value_of(s@.subrange(pos as int, pos + i), radix as nat),
            v < bound,
            bound <= (if i == 0 {
                1nat
            } else if i == 1 {
                16nat
            } else if i == 2 {
                256nat
            } else if i == 3 {
                4096nat
            } else {
                65536nat
            }),
            forall|k: int| pos <= k < pos + n ==> digit_value(#[trigger] s@[k], radix as nat) is Some,
        decreases n - i,
    {
        let d = digit_val(s[pos + i], radix);
        proof {
            let pre = s@.subrange(pos as int, pos + i);
            let nxt = s@.subrange(pos as int, pos + i + 1);
            assert(nxt.drop_last() =~= pre);
            assert(nxt.last() == s@[pos + i]);
            assert(v * radix + d < bound * radix) by (nonlinear_arith)
                requires v < bound, d < radix;
            assert(bound * radix <= bound * 16) by (nonlinear_arith)
                requires radix <= 16;
        }
        v = v * radix + d;
        i += 1;
        proof {
            bound = bound * radix as nat;
        }
    }
    if v > max_value || (!allow_zero_prefix && s[pos] == '0' && n > 1) {
        return None;
    }
    Some((v, pos + n))
}

fn read_sep_exec(s: &Vec<char>, pos: usize, sep: char, first: bool) -> (r: Option<usize>)
    requires
        pos <= s@.len(),
    ensures
        match read_sep(s@, pos as int, sep, first) {
            Some(p) => r == Some(p as usize) && pos <= p <= s@.len(),
            None => r is None,
        },
{
    let _len = s.len();
    if first {
        Some(pos)
    } else if pos < s.len() && s[pos] == sep {
        Some(pos + 1)
    } else {
        None
    }
}

fn read_octet_exec(s: &Vec<char>, pos: usize, first: bool) -> (r: Option<(u8, usize)>)
    requires
        pos <= s@.len(),
    ensures
        match read_octet(s@, pos as int, first) {
            Some((v, p)) => r == Some((v as u8, p as usize)) && v <= 255 && pos <= p <= s@.len(),
            None => r is None,
        },
{
    let _len = s.len();
    match read_sep_exec(s, pos, '.', first) {
        Some(p) => {
            proof {
                lemma_read_number_bounds(s@, p as int, 10, 3, false, 255);
            }
            match read_number_exec(s, p, 10, 3, false, 255) {
                Some((v, q)) => Some((v as u8, q)),
                None => None,
            }
        },
        None => None,
    }
}

/// A number read is within its bounds and ends inside the text.
pub proof fn lemma_read_number_bounds(
    s: Seq<char>,
    pos: int,
    radix: nat,
    max_digits: nat,
    allow_zero_prefix: bool,
    max_value: nat,
)
    requires
        0 <= pos <= s.len(),
    ensures
        read_number(s, pos, radix, max_digits, allow_zero_prefix, max_value) matches Some((v, p)) ==> v
            <= max_value && pos < p <= s.len(),
{
    reveal(read_number);
    lemma_digit_run_bound(s, pos, radix);
}

proof fn lemma_digit_run_bound(s: Seq<char>, pos: int, radix: nat)
    requires
        0 <= pos <= s.len(),
    ensures
        pos + digit_run(s, pos, radix) <= s.len(),
    decreases s.len() - pos,
{
    if pos < s.len() && digit_value(s[pos], radix) is Some {
        lemma_digit_run_bound(s, pos + 1, radix);
    }
}

/// Computes [`read_ipv4`].
pub fn read_ipv4_exec(s: &Vec<char>, pos: usize) -> (r: Option<(Ipv4Octets, usize)>)
    requires
        pos <= s@.len(),
    ensures
        match read_ipv4(s@, pos as int) {
            Some((o, p)) => r == Some((o, p as usize)) && pos <= p <= s@.len(),
            None => r is None,
        },
{
    proof {
        reveal(read_ipv4);
    }
    let _len = s.len();
    let (a, p1) = match read_octet_exec(s, pos, true) {
        Some(x) => x,
        None => return None,
    };
    let (b, p2) = match read_octet_exec(s, p1, false) {
        Some(x) => x,
        None => return None,
    };
    let (c, p3) = match read_octet_exec(s, p2, false) {
        Some(x) => x,
        None => return None,
    };
    let (d, p4) = match read_octet_exec(s, p3, false) {
        Some(x) => x,
        None => return None,
    };
    Some((Ipv4Octets(a, b, c, d), p4))
}

/// Computes [`read_groups`].
pub fn read_groups_exec(s: &Vec<char>, pos: usize, i: usize, limit: usize) -> (r: (Vec<u16>, bool, usize))
    requires
        pos <= s@.len(),
        limit <= 8,
    ensures
        r.0@ == read_groups(s@, pos as int, i as nat, limit as nat).0,
        r.1 == read_groups(s@, pos as int, i as nat, limit as nat).1,
        r.2 == read_groups(s@, pos as int, i as nat, limit as nat).2,
        pos <= r.2 <= s@.len(),
        r.0@.len() <= if i <= limit { limit - i } else { 0 },
    decreases limit - i,
{
    let _len = s.len();
    if i >= limit {
        return (Vec::new(), false, pos);
    }
    if i + 1 < limit {
        match read_sep_exec(s, pos, ':', i == 0) {
            Some(p) => match read_ipv4_exec(s, p) {
                Some((o, q)) => {
                    let mut v: Vec<u16> = Vec::new();
                    v.push((o.0 as u16) * 256 + o.1 as u16);
                    v.push((o.2 as u16) * 256 + o.3 as u16);
                    proof {
                        assert(v@ =~= v4_segments(o));
                    }
                    return (v, true, q);
                },
                None => {},
            },
            None => {},
        }
    }
    match read_sep_exec(s, pos, ':', i == 0) {
        None => (Vec::new(), false, pos),
        Some(p) => {
            proof {
                lemma_read_number_bounds(s@, p as int, 16, 4, true, 0xffff);
            }
            match read_number_exec(s, p, 16, 4, true, 0xffff) {
                None => (Vec::new(), false, pos),
                Some((g, q)) => {
                    let (rest, v4, end) = read_groups_exec(s, q, i + 1, limit);
                    let mut v: Vec<u16> = Vec::new();
                    v.push(g as u16);
                    let mut rest = rest;
                    v.append(&mut rest);
                    proof {
                        assert(v@ =~= seq![g as u16] + read_groups(s@, q as int, (i + 1) as nat, limit as nat).0);
                    }
                    (v, v4, end)
                },
            }
        },
    }
}

/// Computes [`parse_ipv6`] on `s[start..end]`.
pub fn parse_ipv6_exec(s: &Vec<char>, start: usize, end: usize) -> (r: Option<Ipv6Segments>)
    requires
        start <= end <= s@.len(),
    ensures
        match parse_ipv6(s@.subrange(start as int, end as int)) {
            Some(g) => r matches Some(x) && crate::address::segs_of(x) == g,
            None => r is None,
        },
{
    let mut t: Vec<char> = Vec::new();
    let mut k: usize = start;
    while k < end
        invariant
            start <= k <= end <= s@.len(),
            t@ == s@.subrange(start as int, k as int),
        decreases end - k,
    {
        t.push(s[k]);
        k += 1;
        proof {
            assert(t@ =~= s@.subrange(start as int, k as int));
        }
    }
    proof {
        assert(t@ =~= s@.subrange(start as int, end as int));
    }
    let (head, head_v4, p) = read_groups_exec(&t, 0, 0, 8);
    if head.len() == 8 {
        if p == t.len() {
            let x = Ipv6Segments(head[0], head[1], head[2], head[3], head[4], head[5], head[6], head[7]);
            proof {
                assert(crate::address::segs_of(x) =~= head@);
                assert(t@ =~= s@.subrange(start as int, end as int));
            }
            return Some(x);
        }
        return None;
    }
    if head_v4 {
        return None;
    }
    if p < t.len() && p + 1 < t.len() && t[p] == ':' && t[p + 1] == ':' {
        let limit = 8 - (head.len() + 1);
        let (tail, _v4, q) = read_groups_exec(&t, p + 2, 0, limit);
        if q != t.len() {
            return None;
        }
        let zeros = 8 - head.len() - tail.len();
        let mut all: Vec<u16> = Vec::new();
        let mut j: usize = 0;
        while j < head.len()
            invariant
                j <= head@.len(),
                all@ == head@.take(j as int),
            decreases head@.len() - j,
        {
            all.push(head[j]);
            j += 1;
            proof {
                assert(all@ =~= head@.take(j as int));
            }
        }
        let mut z: usize = 0;
        while z < zeros
            invariant
                z <= zeros,
                all@ == head@ + Seq::new(z as nat, |k: int| 0u16),
            decreases zeros - z,
        {
            all.push(0);
            z += 1;
            proof {
                assert(all@ =~= head@ + Seq::new(z as nat, |k: int| 0u16));
            }
        }
        let mut j2: usize = 0;
        while j2 < tail.len()
            invariant
                j2 <= tail@.len(),
                all@ == head@ + Seq::new(zeros as nat, |k: int| 0u16) + tail@.take(j2 as int),
            decreases tail@.len() - j2,
        {
            all.push(tail[j2]);
            j2 += 1;
            proof {
                assert(all@ =~= head@ + Seq::new(zeros as nat, |k: int| 0u16) + tail@.take(j2 as int));
            }
        }
        proof {
            assert(tail@.take(tail@.len() as int) =~= tail@);
            assert(head@.take(head@.len() as int) =~= head@);
        }
        let x = Ipv6Segments(all[0], all[1], all[2], all[3], all[4], all[5], all[6], all[7]);
        proof {
            assert(crate::address::segs_of(x) =~= all@);
        }
        return Some(x);
    }
    None
}

} // verus!
