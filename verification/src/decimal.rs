//! Integers as decimal text, both ways.

use vstd::prelude::*;

verus! {

/// The character of the decimal digit `d`.
pub open spec fn digit(d: int) -> char {
    if d == 0 {
        '0'
    } else if d == 1 {
        '1'
    } else if d == 2 {
        '2'
    } else if d == 3 {
        '3'
    } else if d == 4 {
        '4'
    } else if d == 5 {
        '5'
    } else if d == 6 {
        '6'
    } else if d == 7 {
        '7'
    } else if d == 8 {
        '8'
    } else {
        '9'
    }
}

/// The value of the decimal digit `c`, where it is one.
pub open spec fn digit_value(c: char) -> Option<int> {
    if c == '0' {
        Some(0)
    } else if c == '1' {
        Some(1)
    } else if c == '2' {
        Some(2)
    } else if c == '3' {
        Some(3)
    } else if c == '4' {
        Some(4)
    } else if c == '5' {
        Some(5)
    } else if c == '6' {
        Some(6)
    } else if c == '7' {
        Some(7)
    } else if c == '8' {
        Some(8)
    } else if c == '9' {
        Some(9)
    } else {
        None
    }
}

/// The decimal digits of `n`, most significant first, without leading
/// zeros; `0` is the one digit `0`.
pub open spec fn digits(n: nat) -> Seq<char>
    decreases n,
{
    if n < 10 {
        seq![digit(n as int)]
    } else {
        digits(n / 10).push(digit((n % 10) as int))
    }
}

/// The decimal text of `n`: its digits, after a `-` where it is negative.
pub open spec fn decimal(n: int) -> Seq<char> {
    if n < 0 {
        seq!['-'] + digits((-n) as nat)
    } else {
        digits(n as nat)
    }
}

/// The number that a non-empty run of decimal digits stands for.
pub open spec fn digits_value(s: Seq<char>) -> Option<nat>
    decreases s.len(),
{
    if s.len() == 0 {
        None
    } else if s.len() == 1 {
        match digit_value(s[0]) {
            Some(d) => Some(d as nat),
            None => None,
        }
    } else {
        match (digits_value(s.drop_last()), digit_value(s.last())) {
            (Some(h), Some(d)) => Some((h * 10 + d) as nat),
            _ => None,
        }
    }
}

/// The integer that `s` stands for: digits after an optional `+` or `-`,
/// and nothing else.
pub open spec fn parse_int(s: Seq<char>) -> Option<int> {
    if s.len() > 0 && s[0] == '-' {
        match digits_value(s.skip(1)) {
            Some(v) => Some(-(v as int)),
            None => None,
        }
    } else if s.len() > 0 && s[0] == '+' {
        match digits_value(s.skip(1)) {
            Some(v) => Some(v as int),
            None => None,
        }
    } else {
        match digits_value(s) {
            Some(v) => Some(v as int),
            None => None,
        }
    }
}

/// The natural number that `s` stands for: digits after an optional `+`.
pub open spec fn parse_nat(s: Seq<char>) -> Option<nat> {
    if s.len() > 0 && s[0] == '+' {
        digits_value(s.skip(1))
    } else {
        digits_value(s)
    }
}

fn digit_char(d: u8) -> (c: char)
    requires
        d < 10,
    ensures
        c == digit(d as int),
{
    if d == 0 {
        '0'
    } else if d == 1 {
        '1'
    } else if d == 2 {
        '2'
    } else if d == 3 {
        '3'
    } else if d == 4 {
        '4'
    } else if d == 5 {
        '5'
    } else if d == 6 {
        '6'
    } else if d == 7 {
        '7'
    } else if d == 8 {
        '8'
    } else {
        '9'
    }
}

fn digit_of(c: char) -> (d: Option<u8>)
    ensures
        match d {
            Some(v) => digit_value(c) == Some(v as int) && v < 10,
            None => digit_value(c) is None,
        },
{
    if c == '0' {
        Some(0)
    } else if c == '1' {
        Some(1)
    } else if c == '2' {
        Some(2)
    } else if c == '3' {
        Some(3)
    } else if c == '4' {
        Some(4)
    } else if c == '5' {
        Some(5)
    } else if c == '6' {
        Some(6)
    } else if c == '7' {
        Some(7)
    } else if c == '8' {
        Some(8)
    } else if c == '9' {
        Some(9)
    } else {
        None
    }
}

/// Appends the decimal digits of `n` to `t`.
pub fn push_digits(t: &mut Vec<char>, n: u128)
    ensures
        final(t)@ == old(t)@ + digits(n as nat),
    decreases n,
{
    if n >= 10 {
        push_digits(t, n / 10);
    }
    let d: u8 = (n % 10) as u8;
    t.push(digit_char(d));
}

/// Appends the decimal text of `n` to `t`.
pub fn push_decimal(t: &mut Vec<char>, n: i128)
    ensures
        final(t)@ == old(t)@ + decimal(n as int),
{
    if n < 0 {
        t.push('-');
        let m: u128 = if n == i128::MIN {
            0x8000_0000_0000_0000_0000_0000_0000_0000u128
        } else {
            (-n) as u128
        };
        push_digits(t, m);
        assert(final(t)@ == old(t)@ + (seq!['-'] + digits((-n) as nat)));
    } else {
        push_digits(t, n as u128);
    }
}

/// The decimal text of `n`.
pub fn decimal_text(n: i128) -> (t: Vec<char>)
    ensures
        t@ == decimal(n as int),
{
    let mut t: Vec<char> = Vec::new();
    push_decimal(&mut t, n);
    t
}

/// A run of digits that goes on after a prefix stands for no less than the
/// prefix does.
proof fn lemma_digits_value_grows(s: Seq<char>, k: int)
    requires
        1 <= k <= s.len(),
        digits_value(s) is Some,
    ensures
        digits_value(s.take(k)) is Some,
        digits_value(s.take(k))->0 <= digits_value(s)->0,
    decreases s.len() - k,
{
    if k == s.len() {
        assert(s.take(k) == s);
    } else {
        assert(s.len() >= 2);
        lemma_digits_value_grows(s.drop_last(), k);
        assert(s.drop_last().take(k) == s.take(k));
    }
}

/// The value of the digits of `t` from `from` on, where they are a
/// non-empty run of digits that stands for no more than `limit`.
fn digits_value_of(t: &Vec<char>, from: usize, limit: u128) -> (r: Option<u128>)
    requires
        from <= t.len(),
        limit <= 0xffff_ffff_ffff_ffff_ffff_ffff_ffffu128,
    ensures
        match r {
            Some(v) => digits_value(t@.skip(from as int)) == Some(v as nat) && v <= limit,
            None => digits_value(t@.skip(from as int)) matches Some(v) ==> v > limit,
        },
{
    let ghost s = t@.skip(from as int);
    if from == t.len() {
        return None;
    }
    let mut acc: u128 = 0;
    let mut i: usize = from;
    while i < t.len()
        invariant
            from <= i <= t.len(),
            s == t@.skip(from as int),
            limit <= 0xffff_ffff_ffff_ffff_ffff_ffff_ffffu128,
            acc <= limit,
            i > from ==> digits_value(s.take(i - from)) == Some(acc as nat),
            i == from ==> acc == 0,
        decreases t.len() - i,
    {
        let c = t[i];
        proof {
            let p = s.take(i - from + 1);
            assert(p.last() == t@[i as int]);
            assert(p.drop_last() == s.take(i - from));
        }
        match digit_of(c) {
            None => {
                proof {
                    let p = s.take(i - from + 1);
                    assert(digits_value(p) is None);
                    if digits_value(s) is Some {
                        lemma_digits_value_grows(s, i - from + 1);
                    }
                }
                return None;
            },
            Some(d) => {
                let next: u128 = acc * 10 + d as u128;
                if next > limit {
                    proof {
                        let p = s.take(i - from + 1);
                        assert(digits_value(p) == Some(next as nat));
                        if digits_value(s) is Some {
                            lemma_digits_value_grows(s, i - from + 1);
                        }
                    }
                    return None;
                }
                acc = next;
            },
        }
        i += 1;
    }
    proof {
        assert(s.take(i - from) == s);
    }
    Some(acc)
}

/// The integer that `t` stands for, where it stands for one that an `i64`
/// holds.
pub fn parse_i64(t: &Vec<char>) -> (r: Option<i64>)
    ensures
        match r {
            Some(v) => parse_int(t@) == Some(v as int),
            None => parse_int(t@) matches Some(v) ==> !(i64::MIN <= v <= i64::MAX),
        },
{
    if t.len() > 0 && t[0] == '-' {
        match digits_value_of(t, 1, 0x8000_0000_0000_0000u128) {
            Some(v) => {
                if v == 0x8000_0000_0000_0000u128 {
                    Some(i64::MIN)
                } else {
                    Some(-(v as i64))
                }
            },
            None => None,
        }
    } else if t.len() > 0 && t[0] == '+' {
        match digits_value_of(t, 1, 0x7fff_ffff_ffff_ffffu128) {
            Some(v) => Some(v as i64),
            None => None,
        }
    } else {
        proof {
            assert(t@.skip(0) == t@);
        }
        match digits_value_of(t, 0, 0x7fff_ffff_ffff_ffffu128) {
            Some(v) => Some(v as i64),
            None => None,
        }
    }
}

/// The natural number that `t` stands for, where it stands for one that a
/// `u64` holds.
pub fn parse_u64(t: &Vec<char>) -> (r: Option<u64>)
    ensures
        match r {
            Some(v) => parse_nat(t@) == Some(v as nat),
            None => parse_nat(t@) matches Some(v) ==> v > u64::MAX,
        },
{
    if t.len() > 0 && t[0] == '+' {
        match digits_value_of(t, 1, 0xffff_ffff_ffff_ffffu128) {
            Some(v) => Some(v as u64),
            None => None,
        }
    } else {
        proof {
            assert(t@.skip(0) == t@);
        }
        match digits_value_of(t, 0, 0xffff_ffff_ffff_ffffu128) {
            Some(v) => Some(v as u64),
            None => None,
        }
    }
}

} // verus!
