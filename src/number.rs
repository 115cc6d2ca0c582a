//! Integers as text: reading them as `str::parse` does for `i64` and `u64`,
//! and writing them in decimal.

use vstd::prelude::*;

use crate::float::{digits_value, is_digit, lemma_digits_value_grows};

verus! {

/// Whether every character of `ds` is an ASCII digit.
pub open spec fn all_digits(ds: Seq<char>) -> bool {
    forall|i: int| 0 <= i < ds.len() ==> is_digit(#[trigger] ds[i])
}

/// The length of the sign that `s` starts with: 1 for `+` or `-`, else 0.
pub open spec fn sign_len(s: Seq<char>) -> int {
    if s.len() > 0 && (s[0] == '+' || s[0] == '-') {
        1
    } else {
        0
    }
}

/// The integer that `s` writes: an optional `+` or `-`, then one or more ASCII
/// digits and nothing else.
pub open spec fn signed_value(s: Seq<char>) -> Option<int> {
    let ds = s.skip(sign_len(s));
    if ds.len() > 0 && all_digits(ds) {
        if s[0] == '-' {
            Some(-digits_value(ds))
        } else {
            Some(digits_value(ds) as int)
        }
    } else {
        None
    }
}

/// What `s.parse::<i64>()` gives.
pub open spec fn i64_value(s: Seq<char>) -> Option<i64> {
    match signed_value(s) {
        Some(v) => if i64::MIN <= v <= i64::MAX {
            Some(v as i64)
        } else {
            None
        },
        None => None,
    }
}

/// What `s.parse::<u64>()` gives: no minus sign is taken.
pub open spec fn u64_value(s: Seq<char>) -> Option<u64> {
    if s.len() > 0 && s[0] == '-' {
        None
    } else {
        match signed_value(s) {
            Some(v) => if 0 <= v <= u64::MAX {
                Some(v as u64)
            } else {
                None
            },
            None => None,
        }
    }
}

/// The value of `s` where it is at most `2^64` in size; `None` where `s` writes
/// no integer or a larger one.
fn bounded_value(s: &Vec<char>) -> (r: Option<i128>)
    ensures
        match signed_value(s@) {
            Some(v) => if -0x1_0000_0000_0000_0000 <= v <= 0x1_0000_0000_0000_0000 {
                r == Some(v as i128)
            } else {
                r is None
            },
            None => r is None,
        },
{
    let n = s.len();
    let negative = n > 0 && s[0] == '-';
    let k: usize = if n > 0 && (s[0] == '+' || s[0] == '-') {
        1
    } else {
        0
    };
    let ghost ds = s@.skip(k as int);
    if k == n {
        return None;
    }
    let mut v: u128 = 0;
    let mut j = k;
    while j < n
        invariant
            k <= j <= n == s@.len(),
            k == sign_len(s@),
            negative == (n > 0 && s@[0] == '-'),
            ds == s@.skip(k as int),
            forall|i: int| 0 <= i < j - k ==> is_digit(#[trigger] ds[i]),
            v == digits_value(ds.take(j - k)),
            v <= 0x1_0000_0000_0000_0000,
        decreases n - j,
    {
        let c = s[j];
        if !('0' <= c && c <= '9') {
            assert(ds[j - k] == c);
            assert(!is_digit(ds[j - k]));
            return None;
        }
        proof {
            let p = ds.take(j + 1 - k);
            assert(p.drop_last() == ds.take(j - k));
            assert(p.last() == c);
        }
        v = v * 10 + (c as u32 - '0' as u32) as u128;
        j = j + 1;
        assert(v == digits_value(ds.take(j - k)));
        if v > 0x1_0000_0000_0000_0000 {
            proof {
                if forall|i: int| 0 <= i < ds.len() ==> is_digit(#[trigger] ds[i]) {
                    lemma_digits_value_grows(ds, j - k);
                }
            }
            return None;
        }
    }
    assert(ds.take(j - k) == ds);
    if negative {
        Some(-(v as i128))
    } else {
        Some(v as i128)
    }
}

/// Reads `s` as `str::parse::<i64>` does.
pub fn parse_i64(s: &Vec<char>) -> (r: Option<i64>)
    ensures
        r == i64_value(s@),
{
    match bounded_value(s) {
        Some(v) => if i64::MIN as i128 <= v && v <= i64::MAX as i128 {
            Some(v as i64)
        } else {
            None
        },
        None => None,
    }
}

/// Reads `s` as `str::parse::<u64>` does.
pub fn parse_u64(s: &Vec<char>) -> (r: Option<u64>)
    ensures
        r == u64_value(s@),
{
    if s.len() > 0 && s[0] == '-' {
        return None;
    }
    match bounded_value(s) {
        Some(v) => if 0 <= v && v <= u64::MAX as i128 {
            Some(v as u64)
        } else {
            None
        },
        None => None,
    }
}

/// The ASCII digit of `d`, for `d < 10`.
pub open spec fn digit_char(d: nat) -> char {
    ('0' as nat + d) as char
}

/// The decimal digits of `n`, with no leading zero.
pub open spec fn nat_text(n: nat) -> Seq<char>
    decreases n,
{
    if n < 10 {
        seq![digit_char(n)]
    } else {
        nat_text(n / 10) + seq![digit_char(n % 10)]
    }
}

/// The decimal text of `i`, with a `-` where it is negative.
pub open spec fn int_text(i: int) -> Seq<char> {
    if i < 0 {
        seq!['-'] + nat_text((-i) as nat)
    } else {
        nat_text(i as nat)
    }
}

/// The ASCII digit of `d`.
fn digit_of(d: u64) -> (c: char)
    requires
        d < 10,
    ensures
        c == digit_char(d as nat),
{
    if d == 0 { '0' } else if d == 1 { '1' } else if d == 2 { '2' } else if d == 3 { '3' }
    else if d == 4 { '4' } else if d == 5 { '5' } else if d == 6 { '6' } else if d == 7 { '7' }
    else if d == 8 { '8' } else { '9' }
}

/// Appends the decimal digits of `n` to `out`.
pub fn push_u64(out: &mut Vec<char>, n: u64)
    ensures
        final(out)@ == old(out)@ + nat_text(n as nat),
    decreases n,
{
    if n >= 10 {
        push_u64(out, n / 10);
    }
    out.push(digit_of(n % 10));
}

/// Appends the decimal text of `i` to `out`.
pub fn push_i64(out: &mut Vec<char>, i: i64)
    ensures
        final(out)@ == old(out)@ + int_text(i as int),
{
    if i < 0 {
        out.push('-');
        let m: u64 = (-(i + 1)) as u64 + 1;
        push_u64(out, m);
    } else {
        push_u64(out, i as u64);
    }
}

} // verus!
