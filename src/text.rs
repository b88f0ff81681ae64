use vstd::prelude::*;
use vstd::string::*;

verus! {

/// The digit character for `d` in bases up to 16, lower case.
pub open spec fn digit_char(d: nat) -> char {
    if d < 10 {
        ((d + 48) as u8) as char
    } else {
        ((d + 87) as u8) as char
    }
}

/// The value of digit character `c` in base `radix` (upper or lower case),
/// if it is one.
pub open spec fn digit_value(c: char, radix: nat) -> Option<nat> {
    let v: int = if '0' <= c && c <= '9' {
        c as int - 48
    } else if 'a' <= c && c <= 'f' {
        c as int - 87
    } else if 'A' <= c && c <= 'F' {
        c as int - 55
    } else {
        99
    };
    if v < radix {
        Some(v as nat)
    } else {
        None
    }
}

/// The decimal text of `n`, without leading zeros.
pub open spec fn dec(n: nat) -> Seq<char>
    decreases n,
{
    if n < 10 {
        seq![digit_char(n)]
    } else {
        dec(n / 10).push(digit_char(n % 10))
    }
}

/// The lower-case hexadecimal text of `n`, without leading zeros.
pub open spec fn hex(n: nat) -> Seq<char>
    decreases n,
{
    if n < 16 {
        seq![digit_char(n)]
    } else {
        hex(n / 16).push(digit_char(n % 16))
    }
}

/// Whether every character of `s` is a digit in base `radix`.
pub open spec fn all_digits(s: Seq<char>, radix: nat) -> bool {
    forall|i: int| 0 <= i < s.len() ==> (#[trigger] digit_value(s[i], radix)) is Some
}

/// The value of the digits `s` in base `radix`.
pub open spec fn value_of(s: Seq<char>, radix: nat) -> nat
    decreases s.len(),
{
    if s.len() == 0 {
        0
    } else {
        value_of(s.drop_last(), radix) * radix + match digit_value(s.last(), radix) {
            Some(v) => v,
            None => 0,
        }
    }
}

/// Characters that [`text_of`] can write.
pub open spec fn writable(c: char) -> bool {
    ('0' <= c && c <= '9') || ('a' <= c && c <= 'f') || c == '.' || c == ':' || c == '[' || c == ']' || c
        == ' ' || c == 'B' || c == 'K' || c == 'M' || c == 'G'
}

/// The characters of `s`.
pub fn chars_of(s: &str) -> (r: Vec<char>)
    ensures
        r@ == s@,
{
    let n = s.unicode_len();
    let mut r: Vec<char> = Vec::new();
    let mut i: usize = 0;
    while i < n
        invariant
            n == s@.len(),
            i <= n,
            r@ == s@.take(i as int),
        decreases n - i,
    {
        r.push(s.get_char(i));
        i += 1;
        proof {
            assert(r@ =~= s@.take(i as int));
        }
    }
    proof {
        assert(s@.take(n as int) =~= s@);
    }
    r
}

fn digit_of(d: u64) -> (c: char)
    requires
        d < 16,
    ensures
        c == digit_char(d as nat),
{
    if d < 10 {
        ((d + 48) as u8) as char
    } else {
        ((d + 87) as u8) as char
    }
}

/// Appends the decimal text of `n` to `out`.
pub fn push_dec(out: &mut Vec<char>, n: u64)
    ensures
        final(out)@ == old(out)@ + dec(n as nat),
    decreases n,
{
    if n >= 10 {
        push_dec(out, n / 10);
    }
    out.push(digit_of(n % 10));
    proof {
        assert(final(out)@ =~= old(out)@ + dec(n as nat));
    }
}

/// Appends the hexadecimal text of `n` to `out`.
pub fn push_hex(out: &mut Vec<char>, n: u64)
    ensures
        final(out)@ == old(out)@ + hex(n as nat),
    decreases n,
{
    if n >= 16 {
        push_hex(out, n / 16);
    }
    out.push(digit_of(n % 16));
    proof {
        assert(final(out)@ =~= old(out)@ + hex(n as nat));
    }
}

fn char_text(c: char) -> (r: &'static str)
    requires
        writable(c),
    ensures
        r@ == seq![c],
{
    proof {
        reveal_strlit("0");
        reveal_strlit("1");
        reveal_strlit("2");
        reveal_strlit("3");
        reveal_strlit("4");
        reveal_strlit("5");
        reveal_strlit("6");
        reveal_strlit("7");
        reveal_strlit("8");
        reveal_strlit("9");
        reveal_strlit("a");
        reveal_strlit("b");
        reveal_strlit("c");
        reveal_strlit("d");
        reveal_strlit("e");
        reveal_strlit("f");
        reveal_strlit(".");
        reveal_strlit(":");
        reveal_strlit("[");
        reveal_strlit("]");
        reveal_strlit(" ");
        reveal_strlit("B");
        reveal_strlit("K");
        reveal_strlit("M");
        reveal_strlit("G");
    }
    match c {
        '0' => "0",
        '1' => "1",
        '2' => "2",
        '3' => "3",
        '4' => "4",
        '5' => "5",
        '6' => "6",
        '7' => "7",
        '8' => "8",
        '9' => "9",
        'a' => "a",
        'b' => "b",
        'c' => "c",
        'd' => "d",
        'e' => "e",
        'f' => "f",
        '.' => ".",
        ':' => ":",
        '[' => "[",
        ']' => "]",
        ' ' => " ",
        'B' => "B",
        'K' => "K",
        'M' => "M",
        _ => "G",
    }
}

/// The string made of `cs`.
pub fn text_of(cs: &Vec<char>) -> (r: String)
    requires
        forall|i: int| 0 <= i < cs@.len() ==> writable(#[trigger] cs@[i]),
    ensures
        r@ == cs@,
{
    let mut r = String::new();
    let mut i: usize = 0;
    while i < cs.len()
        invariant
            i <= cs@.len(),
            r@ == cs@.take(i as int),
            forall|j: int| 0 <= j < cs@.len() ==> writable(#[trigger] cs@[j]),
        decreases cs@.len() - i,
    {
        r.append(char_text(cs[i]));
        i += 1;
        proof {
            assert(r@ =~= cs@.take(i as int));
        }
    }
    proof {
        assert(cs@.take(cs@.len() as int) =~= cs@);
    }
    r
}

/// Decimal digits are writable.
pub proof fn lemma_dec_writable(n: nat)
    ensures
        forall|i: int| 0 <= i < dec(n).len() ==> writable(#[trigger] dec(n)[i]),
        dec(n).len() >= 1,
    decreases n,
{
    if n >= 10 {
        lemma_dec_writable(n / 10);
    }
}

/// Hexadecimal digits are writable.
pub proof fn lemma_hex_writable(n: nat)
    ensures
        forall|i: int| 0 <= i < hex(n).len() ==> writable(#[trigger] hex(n)[i]),
        hex(n).len() >= 1,
    decreases n,
{
    if n >= 16 {
        lemma_hex_writable(n / 16);
    }
}

/// The value of an unsigned decimal text as `str::parse` reads it: an
/// optional `+`, then one or more decimal digits.
pub open spec fn unsigned_text(s: Seq<char>) -> Option<nat> {
    let d = if s.len() > 0 && s[0] == '+' {
        s.skip(1)
    } else {
        s
    };
    if d.len() > 0 && all_digits(d, 10) {
        Some(value_of(d, 10))
    } else {
        None
    }
}

/// A longer digit string is worth at least as much as its prefix.
proof fn lemma_value_grows(s: Seq<char>, c: char, radix: nat)
    requires
        radix >= 1,
    ensures
        value_of(s.push(c), radix) >= value_of(s, radix),
{
    assert(s.push(c).drop_last() =~= s);
    let v = value_of(s, radix);
    assert(v * radix >= v) by (nonlinear_arith)
        requires radix >= 1;
}

/// Reads `s[start..end]` as [`unsigned_text`]; returns its value when it is
/// one and at most `limit`.
pub fn parse_unsigned(s: &Vec<char>, start: usize, end: usize, limit: u64) -> (r: Option<u64>)
    requires
        start <= end <= s@.len(),
    ensures
        r == (match unsigned_text(s@.subrange(start as int, end as int)) {
            Some(v) => if v <= limit {
                Some(v as u64)
            } else {
                None::<u64>
            },
            None => None::<u64>,
        }),
{
    let ghost t = s@.subrange(start as int, end as int);
    let first = if start < end && s[start] == '+' {
        start + 1
    } else {
        start
    };
    let ghost d = s@.subrange(first as int, end as int);
    proof {
        if start < end && s@[start as int] == '+' {
            assert(d =~= t.skip(1));
        } else {
            assert(d =~= t);
        }
    }
    if first == end {
        return None;
    }
    let mut acc: u64 = 0;
    let mut over = false;
    let mut i: usize = first;
    while i < end
        invariant
            first <= i <= end <= s@.len(),
            first < end,
            d == s@.subrange(first as int, end as int),
            t == s@.subrange(start as int, end as int),
            unsigned_text(t) == (if all_digits(d, 10) {
                Some(value_of(d, 10))
            } else {
                None::<nat>
            }),
            all_digits(s@.subrange(first as int, i as int), 10),
            over ==> value_of(s@.subrange(first as int, i as int), 10) > limit,
            !over ==> acc == value_of(s@.subrange(first as int, i as int), 10) && acc <= limit,
        decreases end - i,
    {
        let c = s[i];
        if !('0' <= c && c <= '9') {
            proof {
                assert(d[i - first] == c);
                assert(!(digit_value(d[i - first], 10) is Some));
            }
            return None;
        }
        let ghost pre = s@.subrange(first as int, i as int);
        proof {
            assert(s@.subrange(first as int, i + 1) =~= pre.push(c));
            assert(pre.push(c).drop_last() =~= pre);
            lemma_value_grows(pre, c, 10);
        }
        if !over {
            let next: u128 = (acc as u128) * 10 + ((c as u32 - 48) as u128);
            if next > limit as u128 {
                over = true;
            } else {
                acc = next as u64;
            }
        }
        i += 1;
        proof {
            let cur = s@.subrange(first as int, i as int);
            assert forall|k: int| 0 <= k < cur.len() implies (#[trigger] digit_value(cur[k], 10)) is Some by {
                if k < cur.len() - 1 {
                    assert(cur[k] == pre[k]);
                }
            }
        }
    }
    proof {
        assert(s@.subrange(first as int, i as int) =~= d);
    }
    if over {
        None
    } else {
        Some(acc)
    }
}

/// The decimal text of `n` is made of ASCII digits, reads back as `n`, has no
/// leading zero, and is at most three characters long below 1000.
pub proof fn lemma_dec_props(n: nat)
    ensures
        forall|i: int| 0 <= i < dec(n).len() ==> '0' <= #[trigger] dec(n)[i] && dec(n)[i] <= '9',
        forall|i: int| 0 <= i < dec(n).len() ==> (#[trigger] digit_value(dec(n)[i], 10)) is Some,
        value_of(dec(n), 10) == n,
        dec(n).len() >= 1,
        dec(n)[0] == '0' ==> n == 0 && dec(n).len() == 1,
        n < 10 ==> dec(n).len() == 1,
        n < 100 ==> dec(n).len() <= 2,
        n < 1000 ==> dec(n).len() <= 3,
        n < 10000 ==> dec(n).len() <= 4,
        n < 100000 ==> dec(n).len() <= 5,
    decreases n,
{
    if n >= 10 {
        lemma_dec_props(n / 10);
        let d = dec(n);
        assert(d.drop_last() =~= dec(n / 10));
        assert(d[0] == dec(n / 10)[0]);
        assert(d.last() == digit_char(n % 10));
        assert(digit_value(digit_char(n % 10), 10) == Some((n % 10) as nat));
        assert(n == (n / 10) * 10 + n % 10);
        assert(value_of(d, 10) == value_of(d.drop_last(), 10) * 10 + (n % 10));
        assert(value_of(d.drop_last(), 10) == n / 10);
        assert(value_of(d, 10) == (n / 10) * 10 + n % 10);
    } else {
        let d = dec(n);
        assert(d.drop_last() =~= Seq::<char>::empty());
        assert(digit_value(digit_char(n), 10) == Some(n));
        assert(value_of(d, 10) == value_of(d.drop_last(), 10) * 10 + n);
    }
}

/// The hexadecimal text of `n` is made of lower-case hex digits, reads back
/// as `n`, and has at most four characters below 65536.
pub proof fn lemma_hex_props(n: nat)
    ensures
        forall|i: int| 0 <= i < hex(n).len() ==> (#[trigger] digit_value(hex(n)[i], 16)) is Some,
        forall|i: int|
            0 <= i < hex(n).len() ==> ('0' <= #[trigger] hex(n)[i] && hex(n)[i] <= '9') || ('a' <= hex(n)[i]
                && hex(n)[i] <= 'f'),
        value_of(hex(n), 16) == n,
        hex(n).len() >= 1,
        n < 16 ==> hex(n).len() == 1,
        n < 256 ==> hex(n).len() <= 2,
        n < 4096 ==> hex(n).len() <= 3,
        n < 65536 ==> hex(n).len() <= 4,
    decreases n,
{
    if n >= 16 {
        lemma_hex_props(n / 16);
        let d = hex(n);
        assert(d.drop_last() =~= hex(n / 16));
        assert(d.last() == digit_char(n % 16));
        assert(digit_value(digit_char(n % 16), 16) == Some((n % 16) as nat));
        assert(n == (n / 16) * 16 + n % 16);
        assert(value_of(d, 16) == value_of(d.drop_last(), 16) * 16 + (n % 16));
        assert(value_of(d.drop_last(), 16) == n / 16);
    } else {
        let d = hex(n);
        assert(d.drop_last() =~= Seq::<char>::empty());
        assert(digit_value(digit_char(n), 16) == Some(n));
        assert(value_of(d, 16) == value_of(d.drop_last(), 16) * 16 + n);
    }
}

} // verus!
