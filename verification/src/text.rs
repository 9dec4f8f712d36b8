//! Numbers as text, and text as numbers.

use vstd::prelude::*;
use vstd::string::{StrSliceExecFns, StringExecFns};

verus! {

/// The character of a decimal digit.
pub open spec fn digit_char(d: nat) -> char {
    if d == 0 {
        '0'
    } else if d == 1 {
        '1'
    } else if d == 2 {
        '2'
    } else if d == 3 {
        '3'
    } else if d == 4 {
        '4'
    } else if d == 5 {
        '5'
    } else if d == 6 {
        '6'
    } else if d == 7 {
        '7'
    } else if d == 8 {
        '8'
    } else {
        '9'
    }
}

/// The decimal digits of a number, the most significant first.
pub open spec fn decimal(n: nat) -> Seq<char>
    decreases n,
{
    if n < 10 {
        seq![digit_char(n)]
    } else {
        decimal(n / 10).push(digit_char(n % 10))
    }
}

fn digit_text(d: u64) -> (r: &'static str)
    requires
        d < 10,
    ensures
        r@ == seq![digit_char(d as nat)],
{
    proof {
        reveal_strlit("0");
        reveal_strlit("1");
        reveal_strlit("2");
        reveal_strlit("3");
        reveal_strlit("4");
        reveal_strlit("5");
        reveal_strlit("6");
        reveal_strlit("7");
        reveal_strlit("8");
        reveal_strlit("9");
    }
    let r = if d == 0 {
        "0"
    } else if d == 1 {
        "1"
    } else if d == 2 {
        "2"
    } else if d == 3 {
        "3"
    } else if d == 4 {
        "4"
    } else if d == 5 {
        "5"
    } else if d == 6 {
        "6"
    } else if d == 7 {
        "7"
    } else if d == 8 {
        "8"
    } else {
        "9"
    };
    assert(r@ =~= seq![digit_char(d as nat)]);
    r
}

/// A number written in decimal.
pub fn number_text(n: u64) -> (r: String)
    ensures
        r@ == decimal(n as nat),
    decreases n,
{
    if n < 10 {
        digit_text(n).to_owned()
    } else {
        let mut s = number_text(n / 10);
        let ghost before = s@;
        s.append(digit_text(n % 10));
        assert(s@ =~= before.push(digit_char((n % 10) as nat)));
        s
    }
}

/// A name followed by a number.
pub fn numbered(name: &str, n: u32) -> (r: String)
    ensures
        r@ == name@ + decimal(n as nat),
{
    let mut s = name.to_owned();
    s.append(number_text(n as u64).as_str());
    s
}

/// The value of a decimal digit.
pub open spec fn digit_value(c: char) -> Option<nat> {
    if '0' <= c && c <= '9' {
        Some((c as nat - '0' as nat) as nat)
    } else {
        None
    }
}

/// The number that the first `n` characters stand for, where all of them
/// are decimal digits.
pub open spec fn digits_value(s: Seq<char>, n: int) -> Option<nat>
    decreases n,
{
    if n <= 0 {
        Some(0)
    } else {
        match (digits_value(s, n - 1), digit_value(s[n - 1])) {
            (Some(v), Some(d)) => Some(10 * v + d),
            _ => None,
        }
    }
}

/// The number of sixteen bits that a text stands for: decimal digits, at
/// least one, behind at most one plus sign.
pub open spec fn parsed_u16(s: Seq<char>) -> Option<u16> {
    let digits = if s.len() > 0 && s[0] == '+' {
        s.skip(1)
    } else {
        s
    };
    if digits.len() == 0 {
        None
    } else {
        in_sixteen_bits(digits_value(digits, digits.len() as int))
    }
}

/// A number, where there is one and it fits in sixteen bits.
pub open spec fn in_sixteen_bits(v: Option<nat>) -> Option<u16> {
    match v {
        Some(v) => if v <= u16::MAX {
            Some(v as u16)
        } else {
            None
        },
        None => None,
    }
}

/// Where, among the first `n` characters, the piece after the last hyphen
/// begins.
pub open spec fn last_piece_start(s: Seq<char>, n: int) -> int
    decreases n,
{
    if n <= 0 {
        0
    } else if s[n - 1] == '-' {
        n
    } else {
        last_piece_start(s, n - 1)
    }
}

/// The number of a host: what stands behind the last hyphen of its name.
pub open spec fn host_number_of(hostname: Seq<char>) -> Option<u16> {
    parsed_u16(hostname.skip(last_piece_start(hostname, hostname.len() as int)))
}

proof fn lemma_digits_stay_none(s: Seq<char>, n: int, m: int)
    requires
        n <= m,
        digits_value(s, n) is None,
    ensures
        digits_value(s, m) is None,
    decreases m - n,
{
    if n < m {
        lemma_digits_stay_none(s, n, m - 1);
    }
}

proof fn lemma_digits_grow(s: Seq<char>, n: int, m: int)
    requires
        0 <= n <= m,
        digits_value(s, m) is Some,
    ensures
        digits_value(s, n) is Some,
        digits_value(s, n)->0 <= digits_value(s, m)->0,
    decreases m - n,
{
    if n < m {
        lemma_digits_grow(s, n, m - 1);
    }
}

/// The number of a host, read off its name.
pub fn host_number(hostname: &str) -> (r: Option<u16>)
    ensures
        r == host_number_of(hostname@),
{
    let ghost s = hostname@;
    let n = hostname.unicode_len();
    let mut start = n;
    while start > 0 && hostname.get_char(start - 1) != '-'
        invariant
            start <= n,
            n == s.len(),
            s == hostname@,
            last_piece_start(s, n as int) == last_piece_start(s, start as int),
        decreases start,
    {
        start -= 1;
    }
    let ghost piece = s.skip(start as int);
    let mut i = start;
    if i < n && hostname.get_char(i) == '+' {
        i += 1;
    }
    let first = i;
    let ghost digits = s.skip(first as int);
    assert(digits =~= if piece.len() > 0 && piece[0] == '+' {
        piece.skip(1)
    } else {
        piece
    });
    if i == n {
        return None;
    }
    assert(last_piece_start(s, n as int) == start) by {
        if start > 0 {
            assert(s[start - 1] == '-');
        }
    }
    assert(host_number_of(s) == in_sixteen_bits(digits_value(digits, digits.len() as int)));
    let mut v: u32 = 0;
    while i < n
        invariant
            first <= i <= n,
            n == s.len(),
            s == hostname@,
            digits == s.skip(first as int),
            host_number_of(s) == in_sixteen_bits(digits_value(digits, digits.len() as int)),
            digits_value(digits, i - first) == Some(v as nat),
            v <= u16::MAX,
        decreases n - i,
    {
        let c = hostname.get_char(i);
        assert(digits[i - first] == c);
        if c < '0' || c > '9' {
            proof {
                lemma_digits_stay_none(digits, i - first + 1, digits.len() as int);
            }
            return None;
        }
        let d: u32 = c as u32 - '0' as u32;
        v = 10 * v + d;
        i += 1;
        if v > 65535 {
            proof {
                if digits_value(digits, digits.len() as int) is Some {
                    lemma_digits_grow(digits, i - first, digits.len() as int);
                }
            }
            return None;
        }
    }
    Some(v as u16)
}

} // verus!
