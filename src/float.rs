//! Floating-point field values, held as exact decimal numbers.
//!
//! A token is a float when it is written as `[+-]digits[.digits][e[+-]digits]`
//! (at least one digit before or after the point; `e` or `E`), or as `inf`,
//! `infinity` or `nan` in any case, with an optional sign. A number's value is
//! the decimal number written, and it is rendered as a plain decimal with no
//! exponent, no leading zeros and no trailing fractional zeros: `10.0` reads as
//! `10`, `5e-1` as `0.5`. The special words render as a 64-bit float prints
//! them: `inf`, `-inf` and `NaN`.
//!
//! The value is kept exactly: digits beyond what a 64-bit float holds are not
//! rounded away, so `0.30000000000000000001` stays as written where a 64-bit
//! float would read `0.3`, and two such values compare by their exact text.
//! Exponents above [`MAX_EXPONENT`] in size are not read as floats (a 64-bit
//! float would read them as an infinity or a zero); such a token is a string.

use vstd::prelude::*;

use crate::text::{chars_of, string_of};

verus! {

/// The largest size of exponent that a float token may have.
pub const MAX_EXPONENT: u64 = 1000;

/// A bound on the power of ten of any value read: the exponent and the number
/// of digits together.
const EXPONENT_RANGE: i128 = 0x1_0000_0000_0000_0000_0000;

/// Whether `c` is an ASCII digit.
pub open spec fn is_digit(c: char) -> bool {
    '0' <= c && c <= '9'
}

/// The end of the run of ASCII digits of `s` that starts at `i`.
pub open spec fn digit_end(s: Seq<char>, i: nat) -> nat
    decreases s.len() - i,
{
    if i < s.len() && is_digit(s[i as int]) {
        digit_end(s, i + 1)
    } else {
        i
    }
}

/// The number that the ASCII digits `ds` write.
pub open spec fn digits_value(ds: Seq<char>) -> nat
    decreases ds.len(),
{
    if ds.len() == 0 {
        0
    } else {
        digits_value(ds.drop_last()) * 10 + (ds.last() as nat - '0' as nat) as nat
    }
}

/// `n` zeros.
pub open spec fn zeros(n: nat) -> Seq<char> {
    Seq::new(n, |i: int| '0')
}

/// How many zeros `ds` starts with.
pub open spec fn leading_zeros(ds: Seq<char>) -> nat
    decreases ds.len(),
{
    if ds.len() > 0 && ds[0] == '0' {
        1 + leading_zeros(ds.drop_first())
    } else {
        0
    }
}

/// How many zeros `ds` ends with.
pub open spec fn trailing_zeros(ds: Seq<char>) -> nat
    decreases ds.len(),
{
    if ds.len() > 0 && ds.last() == '0' {
        1 + trailing_zeros(ds.drop_last())
    } else {
        0
    }
}

/// The exponent written in `s` from index `i` on (`e` or `E`, a sign, digits,
/// and nothing after them), or `None` where there is none or it is too large.
pub open spec fn exponent_at(s: Seq<char>, i: nat) -> Option<int> {
    if i < s.len() && (s[i as int] == 'e' || s[i as int] == 'E') {
        let j0: nat = i + 1;
        let signed = j0 < s.len() && (s[j0 as int] == '+' || s[j0 as int] == '-');
        let j1: nat = if signed { j0 + 1 } else { j0 };
        let j2 = digit_end(s, j1);
        let e = digits_value(s.subrange(j1 as int, j2 as int));
        if j2 == j1 || j2 != s.len() || e > MAX_EXPONENT {
            None
        } else if signed && s[j0 as int] == '-' {
            Some(-e)
        } else {
            Some(e as int)
        }
    } else {
        None
    }
}

/// A float token taken apart: whether it is negative, all of its digits
/// (before and after the point), and the power of ten that they are scaled by.
pub open spec fn decimal_parts(s: Seq<char>) -> Option<(bool, Seq<char>, int)> {
    let i0: nat = if s.len() > 0 && (s[0] == '+' || s[0] == '-') { 1 } else { 0 };
    let negative = s.len() > 0 && s[0] == '-';
    let i1 = digit_end(s, i0);
    let has_point = i1 < s.len() && s[i1 as int] == '.';
    let i2 = if has_point { digit_end(s, i1 + 1) } else { i1 };
    let whole = s.subrange(i0 as int, i1 as int);
    let fraction = if has_point { s.subrange((i1 + 1) as int, i2 as int) } else { Seq::empty() };
    if whole.len() + fraction.len() == 0 {
        None
    } else if i2 == s.len() {
        Some((negative, whole + fraction, -fraction.len()))
    } else {
        match exponent_at(s, i2) {
            Some(e) => Some((negative, whole + fraction, e - fraction.len())),
            None => None,
        }
    }
}

/// The plain decimal text of `sign * d * 10^e`, for digits `d` with no
/// leading or trailing zero.
pub open spec fn decimal_text(negative: bool, d: Seq<char>, e: int) -> Seq<char> {
    let sign = if negative { seq!['-'] } else { Seq::empty() };
    if d.len() == 0 {
        sign + seq!['0']
    } else if e >= 0 {
        sign + d + zeros(e as nat)
    } else if d.len() > -e {
        sign + d.take(d.len() + e) + seq!['.'] + d.skip(d.len() + e)
    } else {
        sign + seq!['0', '.'] + zeros((-e - d.len()) as nat) + d
    }
}

/// The text that a float token renders as, or `None` where `s` is no float.
pub open spec fn float_text(s: Seq<char>) -> Option<Seq<char>> {
    match decimal_parts(s) {
        None => special_text(s),
        Some((negative, ds, e)) => {
            let sig = ds.skip(leading_zeros(ds) as int);
            let t = trailing_zeros(sig);
            Some(decimal_text(negative, sig.take(sig.len() - t), e + t))
        },
    }
}

/// Whether `c` is the lower-case ASCII letter `lc`, in either case.
pub open spec fn same_letter(c: char, lc: char) -> bool {
    c == lc || ((lc as u32) >= 32 && (c as u32) == (lc as u32) - 32)
}

/// Whether `s` is the lower-case word `w`, each letter in either case.
pub open spec fn same_word(s: Seq<char>, w: Seq<char>) -> bool {
    s.len() == w.len() && forall|i: int| 0 <= i < s.len() ==> same_letter(#[trigger] s[i], w[i])
}

/// The text of the infinity or NaN that `s` writes (an optional sign, then
/// `inf`, `infinity` or `nan` in any case), as a 64-bit float prints it.
pub open spec fn special_text(s: Seq<char>) -> Option<Seq<char>> {
    let k: int = if s.len() > 0 && (s[0] == '+' || s[0] == '-') { 1 } else { 0 };
    let negative = s.len() > 0 && s[0] == '-';
    let w = s.skip(k);
    if same_word(w, "inf"@) || same_word(w, "infinity"@) {
        Some(if negative { "-inf"@ } else { "inf"@ })
    } else if same_word(w, "nan"@) {
        Some("NaN"@)
    } else {
        None
    }
}

/// Whether `v[from..]` is the lower-case word `w`, each letter in either case.
fn same_word_exec(v: &Vec<char>, from: usize, w: &str) -> (r: bool)
    requires
        from <= v@.len(),
    ensures
        r == same_word(v@.skip(from as int), w@),
{
    let wv = chars_of(w);
    let len = v.len();
    let n = len - from;
    if n != wv.len() {
        return false;
    }
    let mut i: usize = 0;
    while i < n
        invariant
            i <= n == wv@.len(),
            from + n == v@.len(),
            v@.len() <= usize::MAX,
            wv@ == w@,
            forall|j: int| 0 <= j < i ==> same_letter(#[trigger] v@.skip(from as int)[j], wv@[j]),
        decreases n - i,
    {
        let c = v[from + i];
        let lc = wv[i];
        assert(v@.skip(from as int)[i as int] == c);
        if !(c == lc || ((lc as u32) >= 32 && (c as u32) == (lc as u32) - 32)) {
            return false;
        }
        i = i + 1;
    }
    true
}

/// The text of the infinity or NaN that `v` writes.
fn special_exec(v: &Vec<char>) -> (r: Option<String>)
    ensures
        match special_text(v@) {
            Some(t) => r is Some && r->Some_0@ == t,
            None => r is None,
        },
{
    let k: usize = if v.len() > 0 && (v[0] == '+' || v[0] == '-') {
        1
    } else {
        0
    };
    let negative = v.len() > 0 && v[0] == '-';
    if same_word_exec(v, k, "inf") || same_word_exec(v, k, "infinity") {
        if negative {
            Some("-inf".to_owned())
        } else {
            Some("inf".to_owned())
        }
    } else if same_word_exec(v, k, "nan") {
        Some("NaN".to_owned())
    } else {
        None
    }
}

/// A floating-point value, held as the canonical text of its decimal value.
#[derive(Debug, Clone)]
pub struct Float {
    text: String,
}

impl View for Float {
    type V = Seq<char>;

    closed spec fn view(&self) -> Seq<char> {
        self.text@
    }
}

fn digit_end_exec(s: &Vec<char>, i: usize) -> (r: usize)
    requires
        i <= s@.len(),
    ensures
        r == digit_end(s@, i as nat),
        i <= r <= s@.len(),
        forall|k: int| i <= k < r ==> is_digit(#[trigger] s@[k]),
{
    let mut j = i;
    while j < s.len() && '0' <= s[j] && s[j] <= '9'
        invariant
            i <= j <= s@.len(),
            digit_end(s@, j as nat) == digit_end(s@, i as nat),
            forall|k: int| i <= k < j ==> is_digit(#[trigger] s@[k]),
        decreases s@.len() - j,
    {
        j = j + 1;
    }
    j
}

pub(crate) proof fn lemma_digits_value_grows(ds: Seq<char>, k: int)
    requires
        0 <= k <= ds.len(),
        forall|i: int| 0 <= i < ds.len() ==> is_digit(#[trigger] ds[i]),
    ensures
        digits_value(ds.take(k)) <= digits_value(ds),
    decreases ds.len(),
{
    if k < ds.len() {
        lemma_digits_value_grows(ds.drop_last(), k);
        assert(ds.drop_last().take(k) == ds.take(k));
    } else {
        assert(ds.take(k) == ds);
    }
}

/// The value of the exponent digits `s[from..to]`, or `None` above the limit.
fn exponent_value(s: &Vec<char>, from: usize, to: usize) -> (r: Option<u64>)
    requires
        from <= to <= s@.len(),
        forall|k: int| from <= k < to ==> is_digit(#[trigger] s@[k]),
    ensures
        match r {
            Some(v) => v == digits_value(s@.subrange(from as int, to as int)) && v <= MAX_EXPONENT,
            None => digits_value(s@.subrange(from as int, to as int)) > MAX_EXPONENT,
        },
{
    let ghost ds = s@.subrange(from as int, to as int);
    let mut v: u64 = 0;
    let mut j = from;
    while j < to
        invariant
            from <= j <= to <= s@.len(),
            ds == s@.subrange(from as int, to as int),
            forall|k: int| from <= k < to ==> is_digit(#[trigger] s@[k]),
            v == digits_value(ds.take(j - from)),
            v <= MAX_EXPONENT,
        decreases to - j,
    {
        let d = (s[j] as u32 - '0' as u32) as u64;
        proof {
            let p = ds.take(j + 1 - from);
            assert(p.drop_last() == ds.take(j - from));
            assert(p.last() == s@[j as int]);
        }
        v = v * 10 + d;
        j = j + 1;
        if v > MAX_EXPONENT {
            proof {
                assert forall|i: int| 0 <= i < ds.len() implies is_digit(#[trigger] ds[i]) by {
                    assert(ds[i] == s@[from + i]);
                }
                lemma_digits_value_grows(ds, j - from);
            }
            return None;
        }
    }
    assert(ds.take(j - from) == ds);
    Some(v)
}

/// Appends `v[from..to]` to `out`.
pub(crate) fn push_range(out: &mut Vec<char>, v: &Vec<char>, from: usize, to: usize)
    requires
        from <= to <= v@.len(),
    ensures
        final(out)@ == old(out)@ + v@.subrange(from as int, to as int),
{
    let mut j = from;
    while j < to
        invariant
            from <= j <= to <= v@.len(),
            out@ == old(out)@ + v@.subrange(from as int, j as int),
        decreases to - j,
    {
        out.push(v[j]);
        j = j + 1;
        assert(v@.subrange(from as int, j as int) == v@.subrange(from as int, j - 1) + seq![
            v@[j - 1],
        ]);
    }
}

/// Appends `n` zeros to `out`.
fn push_zeros(out: &mut Vec<char>, n: i128)
    requires
        n >= 0,
    ensures
        final(out)@ == old(out)@ + zeros(n as nat),
{
    let mut k: i128 = 0;
    while k < n
        invariant
            0 <= k <= n,
            out@ == old(out)@ + zeros(k as nat),
        decreases n - k,
    {
        out.push('0');
        k = k + 1;
        assert(zeros(k as nat) == zeros((k - 1) as nat) + seq!['0']);
    }
}

/// The digits `ds` without their leading and trailing zeros, and how many
/// trailing zeros there were.
fn strip_zeros(ds: &Vec<char>) -> (r: (Vec<char>, usize))
    ensures
        ({
            let sig = ds@.skip(leading_zeros(ds@) as int);
            &&& r.0@ == sig.take(sig.len() - trailing_zeros(sig))
            &&& r.1 == trailing_zeros(sig)
        }),
{
    let n = ds.len();
    let mut p: usize = 0;
    assert(ds@.skip(0) == ds@);
    while p < n && ds[p] == '0'
        invariant
            p <= n == ds@.len(),
            leading_zeros(ds@) == p + leading_zeros(ds@.skip(p as int)),
        decreases n - p,
    {
        assert(ds@.skip(p as int).drop_first() == ds@.skip(p + 1));
        p = p + 1;
    }
    let ghost sig = ds@.skip(p as int);
    assert(leading_zeros(sig) == 0);
    let mut m: usize = n;
    assert(ds@.subrange(p as int, n as int) == sig);
    while m > p && ds[m - 1] == '0'
        invariant
            p <= m <= n == ds@.len(),
            sig == ds@.skip(p as int),
            trailing_zeros(sig) == (n - m) + trailing_zeros(ds@.subrange(p as int, m as int)),
        decreases m,
    {
        assert(ds@.subrange(p as int, m as int).drop_last() == ds@.subrange(p as int, m - 1));
        m = m - 1;
    }
    assert(trailing_zeros(ds@.subrange(p as int, m as int)) == 0);
    let mut core: Vec<char> = Vec::new();
    push_range(&mut core, ds, p, m);
    assert(sig.take(sig.len() - trailing_zeros(sig)) == ds@.subrange(p as int, m as int));
    (core, n - m)
}

/// The plain decimal text of `sign * d * 10^e`.
fn decimal_chars(negative: bool, d: &Vec<char>, e: i128) -> (r: Vec<char>)
    requires
        -EXPONENT_RANGE <= e <= EXPONENT_RANGE,
    ensures
        r@ == decimal_text(negative, d@, e as int),
{
    let mut out: Vec<char> = Vec::new();
    if negative {
        out.push('-');
    }
    let ghost sign = out@;
    let n = d.len();
    if n == 0 {
        out.push('0');
    } else if e >= 0 {
        push_range(&mut out, d, 0, n);
        push_zeros(&mut out, e);
        assert(d@.subrange(0, n as int) == d@);
    } else if (n as i128) > -e {
        let split = (n as i128 + e) as usize;
        push_range(&mut out, d, 0, split);
        out.push('.');
        push_range(&mut out, d, split, n);
        assert(d@.subrange(0, split as int) == d@.take(split as int));
        assert(d@.subrange(split as int, n as int) == d@.skip(split as int));
    } else {
        out.push('0');
        out.push('.');
        push_zeros(&mut out, -e - n as i128);
        push_range(&mut out, d, 0, n);
        assert(d@.subrange(0, n as int) == d@);
        assert(sign + seq!['0'] + seq!['.'] == sign + seq!['0', '.']);
    }
    out
}

fn exponent_exec(v: &Vec<char>, i: usize) -> (r: Option<i128>)
    requires
        i < v@.len(),
    ensures
        match exponent_at(v@, i as nat) {
            Some(e) => r == Some(e as i128),
            None => r is None,
        },
{
    let n = v.len();
    if v[i] != 'e' && v[i] != 'E' {
        return None;
    }
    let j0 = i + 1;
    let signed = j0 < n && (v[j0] == '+' || v[j0] == '-');
    let j1 = if signed {
        j0 + 1
    } else {
        j0
    };
    let j2 = digit_end_exec(v, j1);
    if j2 == j1 || j2 != n {
        return None;
    }
    match exponent_value(v, j1, j2) {
        None => None,
        Some(x) => if signed && v[j0] == '-' {
            Some(-(x as i128))
        } else {
            Some(x as i128)
        },
    }
}

fn decimal_parts_exec(v: &Vec<char>) -> (r: Option<(bool, Vec<char>, i128)>)
    ensures
        match decimal_parts(v@) {
            Some((negative, ds, e)) => r is Some && r->Some_0.0 == negative && r->Some_0.1@ == ds
                && r->Some_0.2 == e,
            None => r is None,
        },
        r is Some ==> -EXPONENT_RANGE / 2 <= r->Some_0.2 <= EXPONENT_RANGE / 2,
        r is Some ==> r->Some_0.1@.len() <= v@.len(),
{
    let n = v.len();
    let i0: usize = if n > 0 && (v[0] == '+' || v[0] == '-') {
        1
    } else {
        0
    };
    let negative = n > 0 && v[0] == '-';
    let i1 = digit_end_exec(v, i0);
    let has_point = i1 < n && v[i1] == '.';
    let i2 = if has_point {
        digit_end_exec(v, i1 + 1)
    } else {
        i1
    };
    let fraction_len: usize = if has_point {
        i2 - i1 - 1
    } else {
        0
    };
    if (i1 - i0) + fraction_len == 0 {
        return None;
    }
    let mut e: i128 = 0;
    if i2 < n {
        match exponent_exec(v, i2) {
            None => {
                return None;
            },
            Some(x) => {
                e = x;
            },
        }
    }
    let mut ds: Vec<char> = Vec::new();
    push_range(&mut ds, v, i0, i1);
    if has_point {
        push_range(&mut ds, v, i1 + 1, i2);
    }
    assert(ds@ == v@.subrange(i0 as int, i1 as int) + (if has_point {
        v@.subrange(i1 + 1, i2 as int)
    } else {
        Seq::empty()
    }));
    Some((negative, ds, e - fraction_len as i128))
}

impl Float {
    /// Reads a float token; `None` where `s` is not written as a float.
    pub fn parse(s: &str) -> (r: Option<Float>)
        ensures
            match float_text(s@) {
                Some(t) => r is Some && r->Some_0@ == t,
                None => r is None,
            },
    {
        let v = chars_of(s);
        match decimal_parts_exec(&v) {
            None => match special_exec(&v) {
                Some(text) => Some(Float { text }),
                None => None,
            },
            Some((negative, ds, e)) => {
                let (core, t) = strip_zeros(&ds);
                let text = decimal_chars(negative, &core, e + t as i128);
                Some(Float { text: string_of(&text) })
            },
        }
    }

    /// A copy of this value.
    pub fn duplicate(&self) -> (r: Float)
        ensures
            r@ == self@,
    {
        Float { text: self.text.clone() }
    }

    /// The text of the value: a plain decimal, with no exponent.
    pub fn to_string(&self) -> (r: String)
        ensures
            r@ == self@,
    {
        self.text.clone()
    }
}

} // verus!
