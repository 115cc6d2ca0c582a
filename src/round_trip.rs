//! Writing a data point and reading its line back: for points whose names
//! need no escaping, the line reads back as the same point.

use vstd::prelude::*;

use crate::builder::{
    build_view, field_error, field_text, joined, lemma_first_error_none, tag_error,
    tag_text,
};
use crate::element::{
    field_value_of, integer_pattern, is_false_word, is_true_word, render, unquoted, FieldKey,
    FieldValue, FieldValueView, Measurement, TagKey, TagValue,
};
use crate::escape::{
    escaped, key_class, lemma_class_members, measurement_class, string_class, unescaped,
};
use crate::float::{
    same_letter, same_word, special_text, decimal_parts, decimal_text, digit_end, digits_value, exponent_at, float_text, is_digit,
    leading_zeros, trailing_zeros, zeros,
};
use crate::number::{
    all_digits, digit_char, i64_value, int_text, nat_text, sign_len, signed_value, u64_value,
};
use crate::order::{lemma_text_order_total, sorted_texts, text_order};
use crate::parser::{
    field_set_view, fields_from, is_ws, name_end, parse_line_view, part_end, set_split, set_words,
    tag_set_view, tags_from, trimmed,
};
use crate::point::{first_index, lemma_first_index_found, lookup, pairs_map, put, same_point, LineView};
use crate::traits::{Convert, Format};

verus! {

proof fn lemma_digit_char(d: nat)
    requires
        d < 10,
    ensures
        digit_char(d) as nat == '0' as nat + d,
        is_digit(digit_char(d)),
{
    assert(('0' as nat + d) < 0xD800);
}

/// The decimal digits of `n` are ASCII digits, and they read back as `n`.
proof fn lemma_nat_text(n: nat)
    ensures
        nat_text(n).len() > 0,
        all_digits(nat_text(n)),
        digits_value(nat_text(n)) == n,
    decreases n,
{
    if n >= 10 {
        lemma_nat_text(n / 10);
        lemma_digit_char(n % 10);
        let s = nat_text(n / 10) + seq![digit_char(n % 10)];
        assert(s.drop_last() == nat_text(n / 10));
        assert(s.last() == digit_char(n % 10));
        assert(digits_value(s) == (n / 10) * 10 + n % 10);
        assert((n / 10) * 10 + n % 10 == n) by (nonlinear_arith);
        assert forall|i: int| 0 <= i < s.len() implies is_digit(#[trigger] s[i]) by {
            if i < s.len() - 1 {
                assert(s[i] == nat_text(n / 10)[i]);
            }
        }
    } else {
        lemma_digit_char(n);
        let s = seq![digit_char(n)];
        assert(nat_text(n) == s);
        assert(s.drop_last() == Seq::<char>::empty());
        assert(s.last() == digit_char(n));
        assert(digits_value(s.drop_last()) == 0);
        assert(digits_value(s) == n);
        assert(is_digit(s[0]));
    }
}

/// Escaping leaves a text with no character of the class as it is.
proof fn lemma_escaped_none(s: Seq<char>, special: spec_fn(char) -> bool)
    requires
        forall|i: int| 0 <= i < s.len() ==> !special(#[trigger] s[i]),
    ensures
        escaped(s, special) == s,
    decreases s.len(),
{
    if s.len() > 0 {
        assert(!special(s[0]));
        lemma_escaped_none(s.drop_first(), special);
        assert(s == seq![s[0]] + s.drop_first());
    }
}

/// Unescaping leaves a text with no backslash as it is.
proof fn lemma_unescaped_none(s: Seq<char>, c: char)
    requires
        forall|i: int| 0 <= i < s.len() ==> #[trigger] s[i] != '\\',
    ensures
        unescaped(s, c) == s,
    decreases s.len(),
{
    if s.len() > 0 {
        lemma_unescaped_none(s.drop_first(), c);
        assert(s == seq![s[0]] + s.drop_first());
    }
}

/// A part runs over characters other than backslash, quote and space up to
/// the next space.
proof fn lemma_part_end_run(s: Seq<char>, i: nat, j: nat)
    requires
        i <= j <= s.len(),
        forall|t: int| i <= t < j ==> #[trigger] s[t] != '\\' && s[t] != '"' && s[t] != ' ',
        j == s.len() || s[j as int] == ' ',
    ensures
        part_end(s, i, false, false) == j,
    decreases j - i,
{
    if i < j {
        lemma_part_end_run(s, i + 1, j);
    }
}

/// A name with no backslash and no comma runs to the end.
proof fn lemma_name_end_run(s: Seq<char>, i: nat)
    requires
        i <= s.len(),
        forall|t: int| i <= t < s.len() ==> #[trigger] s[t] != '\\' && s[t] != ',',
    ensures
        name_end(s, i, false) == s.len(),
    decreases s.len() - i,
{
    if i < s.len() {
        lemma_name_end_run(s, i + 1);
    }
}

/// A text that neither starts nor ends with white space is its own trim.
proof fn lemma_trimmed_same(s: Seq<char>)
    requires
        s.len() > 0 ==> !is_ws(s[0]) && !is_ws(s.last()),
    ensures
        trimmed(s) == s,
{
}

/// Within a set, characters other than backslash, quote, `=` and `,` add to
/// the word under way.
proof fn lemma_set_split_run(
    s: Seq<char>,
    i: nat,
    j: nat,
    word: Seq<char>,
    words: Seq<Seq<char>>,
)
    requires
        i <= j <= s.len(),
        forall|t: int|
            i <= t < j ==> #[trigger] s[t] != '\\' && s[t] != '"' && s[t] != '=' && s[t] != ',',
    ensures
        set_split(s, i, false, false, word, words) == set_split(
            s,
            j,
            false,
            false,
            word + s.subrange(i as int, j as int),
            words,
        ),
    decreases j - i,
{
    if i < j {
        lemma_set_split_run(s, i + 1, j, word.push(s[i as int]), words);
        assert(word.push(s[i as int]) + s.subrange((i + 1) as int, j as int) == word + s.subrange(
            i as int,
            j as int,
        ));
    } else {
        assert(word + s.subrange(i as int, j as int) == word);
    }
}

/// The end of a run of digits.
proof fn lemma_digit_end_run(s: Seq<char>, i: nat, j: nat)
    requires
        i <= j <= s.len(),
        forall|t: int| i <= t < j ==> is_digit(#[trigger] s[t]),
        j == s.len() || !is_digit(s[j as int]),
    ensures
        digit_end(s, i) == j,
    decreases j - i,
{
    if i < j {
        lemma_digit_end_run(s, i + 1, j);
    }
}

/// The value of an integer field value.
spec fn integer_of(v: FieldValueView) -> int {
    match v {
        FieldValueView::Integer(i) => i as int,
        FieldValueView::UInteger(u) => u as int,
        _ => 0,
    }
}

/// No word read as a boolean ends with `i`.
proof fn lemma_words_end(s: Seq<char>)
    requires
        s.len() > 0,
        s.last() == 'i',
    ensures
        !is_true_word(s),
        !is_false_word(s),
{
    reveal_strlit("t");
    reveal_strlit("T");
    reveal_strlit("true");
    reveal_strlit("True");
    reveal_strlit("TRUE");
    reveal_strlit("f");
    reveal_strlit("F");
    reveal_strlit("false");
    reveal_strlit("False");
    reveal_strlit("FALSE");
}

/// The text of an integer field value reads back as a value of the same text,
/// whether or not it is taken for an integer.
proof fn lemma_integer_token(v: FieldValueView, shaped: bool)
    requires
        v is Integer || v is UInteger,
    ensures
        field_value_of(render(v), shaped) is Ok,
        render(field_value_of(render(v), shaped)->Ok_0) == render(v),
{
    let x = integer_of(v);
    let r = render(v);
    let number = int_text(x);
    if x < 0 {
        lemma_nat_text((-x) as nat);
    } else {
        lemma_nat_text(x as nat);
    }
    assert(r == number + seq!['i']);
    assert(r.drop_last() == number);
    if shaped {
        if x < 0 {
            let ds = nat_text((-x) as nat);
            assert(number.skip(1) == ds);
            assert(sign_len(number) == 1);
            assert(signed_value(number) == Some(x));
            assert(i64_value(number) == Some(x as i64));
        } else {
            assert(is_digit(number[0]));
            assert(sign_len(number) == 0);
            assert(number.skip(0) == number);
            assert(signed_value(number) == Some(x));
            assert(u64_value(number) == Some(x as u64));
        }
    } else {
        let i0: nat = if x < 0 { 1 } else { 0 };
        assert forall|t: int| i0 <= t < r.len() - 1 implies is_digit(#[trigger] r[t]) by {
            assert(r[t] == number[t]);
            if x < 0 {
                assert(number[t] == nat_text((-x) as nat)[t - 1]);
            } else {
                assert(number[t] == nat_text(x as nat)[t]);
            }
        }
        lemma_digit_end_run(r, i0, (r.len() - 1) as nat);
        assert(exponent_at(r, (r.len() - 1) as nat) is None);
        assert(decimal_parts(r) is None);
        reveal_strlit("inf");
        reveal_strlit("infinity");
        reveal_strlit("nan");
        let k: int = if r.len() > 0 && (r[0] == '+' || r[0] == '-') { 1 } else { 0 };
        assert(k == i0);
        assert(r.skip(k)[0] == r[k]);
        assert(is_digit(r[k]));
        assert(!same_letter(r[k], 'i'));
        assert(!same_letter(r[k], 'n'));
        assert(!same_word(r.skip(k), "inf"@));
        assert(!same_word(r.skip(k), "infinity"@));
        assert(!same_word(r.skip(k), "nan"@));
        assert(special_text(r) is None);
        assert(float_text(r) is None);
        lemma_words_end(r);
    }
}

/// An `i64` written in decimal reads back as itself.
proof fn lemma_i64_text(x: i64)
    ensures
        i64_value(int_text(x as int)) == Some(x),
        int_text(x as int).len() > 0,
        all_digits(int_text(x as int).drop_first()),
        is_digit(int_text(x as int).last()),
        forall|t: int|
            0 <= t < int_text(x as int).len() ==> is_digit(#[trigger] int_text(x as int)[t]) || (
            t == 0 && int_text(x as int)[t] == '-'),
{
    let number = int_text(x as int);
    if x < 0 {
        let ds = nat_text((-x) as nat);
        lemma_nat_text((-x) as nat);
        assert(number.skip(1) == ds);
        assert(number.drop_first() == ds);
        assert(sign_len(number) == 1);
        assert(signed_value(number) == Some(x as int));
        assert(number.last() == ds.last());
        assert forall|t: int| 0 < t < number.len() implies is_digit(#[trigger] number[t]) by {
            assert(number[t] == ds[t - 1]);
        }
    } else {
        lemma_nat_text(x as nat);
        assert(is_digit(number[0]));
        assert(sign_len(number) == 0);
        assert(number.skip(0) == number);
        assert(signed_value(number) == Some(x as int));
        assert forall|t: int| 0 <= t < number.drop_first().len() implies is_digit(
            #[trigger] number.drop_first()[t],
        ) by {
            assert(number.drop_first()[t] == number[t + 1]);
        }
    }
}

/// Whether `c` can stand in a name with no escaping and no quoting: it is no
/// white space, backslash, double quote, comma or equals sign.
pub open spec fn plain_char(c: char) -> bool {
    !is_ws(c) && c != '\\' && c != '"' && c != ',' && c != '='
}

/// Whether every character of `s` is [`plain_char`].
pub open spec fn plain_text(s: Seq<char>) -> bool {
    forall|i: int| 0 <= i < s.len() ==> plain_char(#[trigger] s[i])
}



/// Whether `r` can stand as a field value text in a set with no quoting:
/// every character is plain.
spec fn bare_value(r: Seq<char>) -> bool {
    &&& r.len() > 0
    &&& plain_text(r)
}

/// Whether `t` is the text of a float that some token reads as.
pub open spec fn float_read(t: Seq<char>) -> bool {
    exists|s: Seq<char>| float_text(s) == Some(t)
}

/// Whether a field value is written bare, with no quotes: an integer, a
/// boolean, or a float read from some token.
pub open spec fn simple_value(v: FieldValueView) -> bool {
    v is Integer || v is UInteger || v is Boolean || (v is Float && float_read(v->Float_0))
}

/// The text of a float read from a token reads back as itself.
proof fn lemma_float_read(t: Seq<char>)
    requires
        float_read(t),
    ensures
        float_text(t) == Some(t),
        bare_value(t),
        t.last() != 'i',
{
    let s = choose|s: Seq<char>| float_text(s) == Some(t);
    if decimal_parts(s) is Some {
        lemma_float_parts(s);
        let (negative, ds, e) = decimal_parts(s)->Some_0;
        let sig = ds.skip(leading_zeros(ds) as int);
        let z = trailing_zeros(sig);
        lemma_canonical(negative, sig.take(sig.len() - z), e + z);
    } else {
        lemma_special_canonical(t);
    }
}

/// The texts of an infinity and of NaN read back as themselves.
proof fn lemma_special_canonical(t: Seq<char>)
    requires
        t == "inf"@ || t == "-inf"@ || t == "NaN"@,
    ensures
        float_text(t) == Some(t),
        bare_value(t),
        t.last() != 'i',
{
    reveal_strlit("inf");
    reveal_strlit("-inf");
    reveal_strlit("NaN");
    reveal_strlit("infinity");
    reveal_strlit("nan");
    assert(digit_end(t, 0) == 0);
    if t == "-inf"@ {
        assert(digit_end(t, 1) == 1);
        assert(t.skip(1) == "inf"@);
    } else {
        assert(t.skip(0) == t);
    }
    assert(decimal_parts(t) is None);
    assert(same_word("inf"@, "inf"@));
    assert(same_word("NaN"@, "nan"@));
    assert("NaN"@[0] == 'N');
    assert(!same_letter('N', 'i'));
    assert(!same_word("NaN"@, "inf"@));
}

proof fn lemma_value_text_bare(v: FieldValueView)
    requires
        simple_value(v),
    ensures
        bare_value(render(v)),
{
    if v is Boolean {
        reveal_strlit("true");
        reveal_strlit("false");
    } else if v is Float {
        lemma_float_read(v->Float_0);
    } else {
        lemma_integer_text_bare(v);
    }
}

proof fn lemma_integer_text_bare(v: FieldValueView)
    requires
        v is Integer || v is UInteger,
    ensures
        bare_value(render(v)),
{
    let r = render(v);
    let x: i64 = match v {
        FieldValueView::Integer(i) => i,
        _ => 0,
    };
    if v is Integer {
        lemma_i64_text(x);
    } else {
        lemma_nat_text(integer_of(v) as nat);
    }
    assert forall|t: int| 0 <= t < r.len() implies plain_char(#[trigger] r[t]) by {
        if t < r.len() - 1 {
            if v is Integer {
                assert(r[t] == int_text(x as int)[t]);
            } else {
                assert(r[t] == nat_text(integer_of(v) as nat)[t]);
            }
        }
    }
}



/// Whether `f` can stand as a set in a line with no escaping and no quoting:
/// plain characters, `=` and `,`, starting and ending with a plain one.
spec fn bare_set(f: Seq<char>) -> bool {
    &&& f.len() > 0
    &&& plain_char(f[0])
    &&& plain_char(f.last())
    &&& forall|t: int| 0 <= t < f.len() ==> plain_char(#[trigger] f[t]) || f[t] == '=' || f[t] == ','
}

/// The line of a point with no tag set and the field set `f`.
spec fn fields_line(m: Seq<char>, f: Seq<char>, ts: Option<i64>) -> Seq<char> {
    let tail = match ts {
        Some(x) => seq![' '] + int_text(x as int),
        None => Seq::<char>::empty(),
    };
    m + seq![' '] + f + tail
}

#[verifier::rlimit(100)]
proof fn lemma_parse_fields(m: Seq<char>, f: Seq<char>, ts: Option<i64>)
    requires
        m.len() > 0,
        m[0] != '#',
        plain_text(m),
        set_passes(f),
        field_set_view(f) is Ok,
    ensures
        ({
            let q = parse_line_view(fields_line(m, f, ts));
            &&& q is Ok
            &&& q->Ok_0.measurement == m
            &&& q->Ok_0.tags is None
            &&& q->Ok_0.timestamp == ts
            &&& q->Ok_0.fields == field_set_view(f)->Ok_0
        }),
{
    let line = fields_line(m, f, ts);
    let a = m.len();
    let b = f.len();
    assert(line.subrange(0, a as int) == m);
    assert(line[a as int] == ' ');
    assert(line.subrange((a + 1) as int, (a + 1 + b) as int) == f);
    assert(line[0] == m[0]);
    assert(plain_char(m[0]));
    assert(plain_char(m[a - 1]));
    match ts {
        Some(y) => {
            lemma_i64_text(y);
            assert(line.last() == int_text(y as int).last());
            assert(line[(a + 1 + b) as int] == ' ');
            assert(line.subrange((a + 2 + b) as int, line.len() as int) == int_text(y as int));
            lemma_trimmed_same(int_text(y as int));
        },
        None => {
            assert(line.last() == f.last());
            assert(line.len() == a + 1 + b);
            assert(line.subrange(line.len() as int, line.len() as int) == Seq::<char>::empty());
        },
    }
    lemma_trimmed_same(line);
    assert forall|t: int| 0 <= t < a implies #[trigger] line[t] != '\\' && line[t] != '"'
        && line[t] != ' ' by {
        assert(line[t] == m[t]);
        assert(plain_char(m[t]));
    }
    lemma_part_end_run(line, 0, a);
    lemma_trimmed_same(m);
    assert forall|t: int| 0 <= t < a implies #[trigger] m[t] != '\\' && m[t] != ',' by {
        assert(plain_char(m[t]));
    }
    lemma_name_end_run(m, 0);
    assert(m.subrange(0, a as int) == m);
    assert(line.subrange((a + 1) as int, (a + 1 + b) as int) == f);
    assert(part_end(line, (a + 1) as nat, false, false) == part_end(
        line,
        (a + 1 + b) as nat,
        false,
        false,
    ));
    if a + 1 + b < line.len() {
        assert(line[(a + 1 + b) as int] == ' ');
    }
    assert(part_end(line, (a + 1 + b) as nat, false, false) == a + 1 + b);
    lemma_trimmed_same(f);
    assert forall|t: int| 0 <= t < a implies #[trigger] m[t] != '\\' by {
        assert(plain_char(m[t]));
    }
    lemma_unescaped_none(m, ',');
    lemma_unescaped_none(m, ' ');
    assert(Measurement::unescape_view(m) == m);
}



/// The texts `k=r` of the keys `ks` and value texts `rs`.
spec fn pair_texts(ks: Seq<Seq<char>>, rs: Seq<Seq<char>>) -> Seq<Seq<char>> {
    Seq::new(ks.len(), |j: int| ks[j] + seq!['='] + rs[j])
}

/// The keys `ks` and value texts `rs` in turn.
spec fn interleaved(ks: Seq<Seq<char>>, rs: Seq<Seq<char>>) -> Seq<Seq<char>>
    decreases ks.len(),
{
    if ks.len() == 0 {
        seq![]
    } else {
        seq![ks[0], rs[0]] + interleaved(ks.drop_first(), rs.drop_first())
    }
}

/// Whether every text of `ts` can stand as a value in a set.
spec fn all_tokens(ts: Seq<Seq<char>>) -> bool {
    forall|j: int| 0 <= j < ts.len() ==> token_ok(#[trigger] ts[j])
}

/// Whether every text of `ts` is nonempty and plain.
spec fn all_plain(ts: Seq<Seq<char>>) -> bool {
    forall|j: int| 0 <= j < ts.len() ==> (#[trigger] ts[j]).len() > 0 && plain_text(ts[j])
}

proof fn lemma_interleaved(ks: Seq<Seq<char>>, rs: Seq<Seq<char>>)
    requires
        ks.len() == rs.len(),
    ensures
        interleaved(ks, rs).len() == 2 * ks.len(),
        forall|j: int| 0 <= j < ks.len() ==> #[trigger] interleaved(ks, rs)[2 * j] == ks[j],
        forall|j: int| 0 <= j < ks.len() ==> #[trigger] interleaved(ks, rs)[2 * j + 1] == rs[j],
    decreases ks.len(),
{
    if ks.len() > 0 {
        let rest = interleaved(ks.drop_first(), rs.drop_first());
        lemma_interleaved(ks.drop_first(), rs.drop_first());
        assert forall|j: int| 0 <= j < ks.len() implies #[trigger] interleaved(ks, rs)[2 * j]
            == ks[j] by {
            if j > 0 {
                assert(interleaved(ks, rs)[2 * j] == rest[2 * (j - 1)]);
            }
        }
        assert forall|j: int| 0 <= j < ks.len() implies #[trigger] interleaved(ks, rs)[2 * j + 1]
            == rs[j] by {
            if j > 0 {
                assert(interleaved(ks, rs)[2 * j + 1] == rest[2 * (j - 1) + 1]);
            }
        }
    }
}

proof fn lemma_joined_front(s: Seq<Seq<char>>, sep: char)
    requires
        s.len() >= 2,
    ensures
        joined(s, sep) == s[0] + seq![sep] + joined(s.drop_first(), sep),
    decreases s.len(),
{
    if s.len() == 2 {
        assert(s.drop_last() == seq![s[0]]);
        assert(s.drop_first() == seq![s[1]]);
        assert(joined(s.drop_last(), sep) == s[0]);
        assert(joined(s.drop_first(), sep) == s[1]);
        assert(s.last() == s[1]);
    } else {
        lemma_joined_front(s.drop_last(), sep);
        let d = s.drop_first();
        assert(s.drop_last().drop_first() == d.drop_last());
        assert(d.last() == s.last());
        assert(joined(d, sep) == joined(d.drop_last(), sep) + seq![sep] + d.last());
        assert(s.drop_last()[0] == s[0]);
        assert(joined(s, sep) == joined(s.drop_last(), sep) + seq![sep] + s.last());
        assert(s[0] + seq![sep] + joined(d.drop_last(), sep) + seq![sep] + s.last() == s[0] + seq![
            sep,
        ] + (joined(d.drop_last(), sep) + seq![sep] + d.last()));
    }
}

/// A set written as `k=r` pairs splits into the keys and values in turn.
#[verifier::rlimit(100)]
proof fn lemma_split_pairs(
    x: Seq<char>,
    i: nat,
    ks: Seq<Seq<char>>,
    rs: Seq<Seq<char>>,
    ws: Seq<Seq<char>>,
)
    requires
        ks.len() == rs.len(),
        ks.len() > 0,
        all_plain(ks),
        all_tokens(rs),
        i + joined(pair_texts(ks, rs), ',').len() <= x.len(),
        x.subrange(i as int, (i + joined(pair_texts(ks, rs), ',').len()) as int) == joined(
            pair_texts(ks, rs),
            ',',
        ),
    ensures
        set_split(x, i, false, false, seq![], ws) == set_split(
            x,
            i + joined(pair_texts(ks, rs), ',').len(),
            false,
            false,
            rs.last(),
            ws + interleaved(ks, rs).drop_last(),
        ),
        part_end(x, i, false, false) == part_end(
            x,
            i + joined(pair_texts(ks, rs), ',').len(),
            false,
            false,
        ),
    decreases ks.len(),
{
    let s = pair_texts(ks, rs);
    let j = joined(s, ',');
    let k0 = ks[0];
    let r0 = rs[0];
    let t0 = k0 + seq!['='] + r0;
    assert(s[0] == t0);
    assert(all_plain(ks) ==> k0.len() > 0 && plain_text(k0));
    assert(token_ok(r0));
    let (tail_start, rest) = if ks.len() == 1 {
        assert(s == seq![t0]);
        (0nat, Seq::<char>::empty())
    } else {
        lemma_joined_front(s, ',');
        (0nat, seq![','] + joined(s.drop_first(), ','))
    };
    assert(j == t0 + rest);
    assert(x.subrange(i as int, (i + t0.len()) as int) == t0);
    assert forall|t: int| i <= t < i + k0.len() implies #[trigger] x[t] != '\\' && x[t] != '"'
        && x[t] != '=' && x[t] != ',' by {
        assert(x[t] == j[t - i]);
        assert(j[t - i] == k0[t - i]);
        assert(plain_char(k0[t - i]));
    }
    lemma_set_split_run(x, i, i + k0.len(), seq![], ws);
    assert(Seq::<char>::empty() + x.subrange(i as int, (i + k0.len()) as int) == k0);
    assert(t0[k0.len() as int] == '=');
    assert(j[k0.len() as int] == '=');
    assert(x.subrange(i as int, (i + j.len()) as int)[k0.len() as int] == x[(i + k0.len()) as int]);
    assert(x[(i + k0.len()) as int] == '=');
    assert forall|idx: int| 0 <= idx < r0.len() implies #[trigger] x.subrange(
        (i + k0.len() + 1) as int,
        (i + t0.len()) as int,
    )[idx] == r0[idx] by {
        assert(x[i + k0.len() + 1 + idx] == j[k0.len() + 1 + idx]);
        assert(j[k0.len() + 1 + idx] == t0[k0.len() + 1 + idx]);
    }
    assert(x.subrange((i + k0.len() + 1) as int, (i + t0.len()) as int) =~= r0);
    lemma_token_set_split(x, (i + k0.len() + 1) as nat, r0, ws.push(k0));
    assert forall|t: int| i <= t < i + k0.len() + 1 implies #[trigger] x[t] != '\\' && x[t]
        != '"' && x[t] != ' ' by {
        if t < i + k0.len() {
            assert(x[t] == j[t - i]);
            assert(j[t - i] == k0[t - i]);
            assert(plain_char(k0[t - i]));
        }
    }
    lemma_part_end_pass(x, i, (i + k0.len() + 1) as nat);
    assert(set_split(x, (i + k0.len()) as nat, false, false, k0, ws) == set_split(
        x,
        (i + k0.len() + 1) as nat,
        false,
        false,
        seq![],
        ws.push(k0),
    ));
    let il = interleaved(ks, rs);
    lemma_interleaved(ks, rs);
    if ks.len() == 1 {
        assert(il.drop_last() == seq![k0]);
        assert(ws.push(k0) == ws + seq![k0]);
    } else {
        let ks2 = ks.drop_first();
        let rs2 = rs.drop_first();
        assert(s.drop_first() == pair_texts(ks2, rs2));
        let j2 = joined(pair_texts(ks2, rs2), ',');
        let p = (i + t0.len() + 1) as nat;
        assert(j == t0 + seq![','] + j2);
        assert(j[t0.len() as int] == ',');
        assert(x.subrange(i as int, (i + j.len()) as int)[t0.len() as int] == x[(i + t0.len()) as int]);
        assert(x[(i + t0.len()) as int] == ',');
        assert(set_split(x, (i + t0.len()) as nat, false, false, r0, ws.push(k0)) == set_split(
            x,
            p,
            false,
            false,
            seq![],
            ws.push(k0).push(r0),
        ));
        assert forall|idx: int| 0 <= idx < j2.len() implies #[trigger] x.subrange(
            p as int,
            (p + j2.len()) as int,
        )[idx] == j2[idx] by {
            assert(x[p + idx] == x.subrange(i as int, (i + j.len()) as int)[t0.len() + 1 + idx]);
            assert(j[t0.len() + 1 + idx] == j2[idx]);
        }
        assert(x.subrange(p as int, (p + j2.len()) as int) =~= j2);
        lemma_split_pairs(x, p, ks2, rs2, ws.push(k0).push(r0));
        lemma_part_end_pass(x, (i + t0.len()) as nat, p);
        assert(rs2.last() == rs.last());
        assert(il == seq![k0, r0] + interleaved(ks2, rs2));
        assert(interleaved(ks2, rs2).len() > 0);
        assert(il.drop_last() == seq![k0, r0] + interleaved(ks2, rs2).drop_last());
        assert(ws.push(k0).push(r0) + interleaved(ks2, rs2).drop_last() == ws + il.drop_last());
    }
}

proof fn lemma_set_words_pairs(ks: Seq<Seq<char>>, rs: Seq<Seq<char>>)
    requires
        ks.len() == rs.len(),
        ks.len() > 0,
        all_plain(ks),
        all_tokens(rs),
    ensures
        set_words(joined(pair_texts(ks, rs), ',')) == Ok::<Seq<Seq<char>>, crate::error::SetError>(
            interleaved(ks, rs),
        ),
{
    let j = joined(pair_texts(ks, rs), ',');
    assert(j.subrange(0, j.len() as int) == j);
    lemma_split_pairs(j, 0, ks, rs, seq![]);
    let il = interleaved(ks, rs);
    lemma_interleaved(ks, rs);
    assert(Seq::<Seq<char>>::empty() + il.drop_last() == il.drop_last());
    assert(il.last() == rs.last()) by {
        assert(il[2 * (ks.len() - 1) + 1] == rs[ks.len() - 1]);
    }
    assert(il.drop_last().push(rs.last()) == il);
    assert(token_ok(rs[rs.len() - 1]));
    if !bare_value(rs.last()) {
        let s = choose|s: Seq<char>| quotable(s) && rs.last() == string_token(s);
    }
    assert(rs.last().len() > 0);
}

/// A boolean's text reads back as the same boolean.
proof fn lemma_boolean_token(v: FieldValueView)
    requires
        v is Boolean,
    ensures
        field_value_of(render(v), integer_pattern(render(v))) == Ok::<FieldValueView, crate::error::SetError>(v),
{
    reveal_strlit("true");
    reveal_strlit("false");
    reveal_strlit("t");
    reveal_strlit("T");
    reveal_strlit("True");
    reveal_strlit("TRUE");
    reveal_strlit("f");
    reveal_strlit("F");
    reveal_strlit("False");
    reveal_strlit("FALSE");
    let r = render(v);
    assert(!integer_pattern(r));
    assert(digit_end(r, 0) == 0);
    assert(decimal_parts(r) is None);
    reveal_strlit("inf");
    reveal_strlit("infinity");
    reveal_strlit("nan");
    assert(r.skip(0) == r);
    assert(special_text(r) is None);
}

/// The text of a field value in a line.
spec fn value_token(v: FieldValueView) -> Seq<char> {
    render(FieldValue::escape_view(v))
}

/// Whether a field value is bare, or a quotable string.
pub open spec fn value_ok(v: FieldValueView) -> bool {
    simple_value(v) || (v is String && quotable(v->String_0))
}

/// What the library reads back from the text of a field value.
spec fn read_back(v: FieldValueView) -> FieldValueView {
    FieldValue::unescape_view(field_value_of(value_token(v), integer_pattern(value_token(v)))->Ok_0)
}

/// A quoted string reads back as itself.
proof fn lemma_string_read(s: Seq<char>)
    requires
        quotable(s),
    ensures
        field_value_of(string_token(s), integer_pattern(string_token(s))) == Ok::<
            FieldValueView,
            crate::error::SetError,
        >(FieldValueView::String(string_token(s))),
        FieldValue::unescape_view(FieldValueView::String(string_token(s))) == FieldValueView::String(s),
{
    reveal_strlit("true");
    reveal_strlit("false");
    reveal_strlit("t");
    reveal_strlit("T");
    reveal_strlit("True");
    reveal_strlit("TRUE");
    reveal_strlit("f");
    reveal_strlit("F");
    reveal_strlit("False");
    reveal_strlit("FALSE");
    let r = string_token(s);
    let e = escaped(s, string_class());
    assert(r[0] == '"');
    assert(r.last() == '"');
    assert(!integer_pattern(r));
    assert(digit_end(r, 0) == 0);
    assert(decimal_parts(r) is None);
    reveal_strlit("inf");
    reveal_strlit("infinity");
    reveal_strlit("nan");
    assert(r.skip(0) == r);
    assert(!same_letter(r[0], 'i'));
    assert(!same_letter(r[0], 'n'));
    assert(!same_word(r, "inf"@));
    assert(!same_word(r, "infinity"@));
    assert(!same_word(r, "nan"@));
    assert(special_text(r) is None);
    assert(!is_true_word(r)) by {
        assert(r[0] != "t"@[0] && r[0] != "T"@[0]);
    }
    assert(!is_false_word(r)) by {
        assert(r[0] != "f"@[0] && r[0] != "F"@[0]);
    }
    assert(unquoted(r) == e);
    crate::escape::lemma_string_round_trip(s);
}

/// The text of an acceptable value can stand in a set.
proof fn lemma_value_token_ok(v: FieldValueView)
    requires
        value_ok(v),
    ensures
        token_ok(value_token(v)),
        simple_value(v) ==> value_token(v) == render(v),
{
    if simple_value(v) {
        lemma_value_text_bare(v);
    } else {
        let s = v->String_0;
        assert(value_token(v) == string_token(s));
        assert(is_string_token(value_token(v)));
    }
}

/// Acceptable values with the same text in a line render alike.
proof fn lemma_value_token_inj(a: FieldValueView, b: FieldValueView)
    requires
        value_ok(a),
        value_ok(b),
        value_token(a) == value_token(b),
    ensures
        render(a) == render(b),
{
    lemma_value_token_ok(a);
    lemma_value_token_ok(b);
    if simple_value(a) && simple_value(b) {
    } else if !simple_value(a) && !simple_value(b) {
        let sa = a->String_0;
        let sb = b->String_0;
        let ta = string_token(sa);
        assert(value_token(a) == ta);
        assert(value_token(b) == string_token(sb));
        assert(unquoted(ta) == escaped(sa, string_class()));
        assert(unquoted(string_token(sb)) == escaped(sb, string_class()));
        crate::escape::lemma_string_round_trip(sa);
        crate::escape::lemma_string_round_trip(sb);
    } else if simple_value(a) {
        lemma_value_text_bare(a);
        assert(plain_char(render(a)[0]));
        assert(value_token(b)[0] == '"');
    } else {
        lemma_value_text_bare(b);
        assert(plain_char(render(b)[0]));
        assert(value_token(a)[0] == '"');
    }
}

proof fn lemma_read_back(v: FieldValueView)
    requires
        value_ok(v),
    ensures
        FieldValue::convert_view(value_token(v)) is Ok,
        render(read_back(v)) == render(v),
{
    if v is String {
        lemma_string_read(v->String_0);
        assert(value_token(v) == string_token(v->String_0));
    } else {
        assert(value_token(v) == render(v));
        if v is Boolean {
            lemma_boolean_token(v);
        } else if v is Float {
            lemma_float_read(v->Float_0);
            assert(!integer_pattern(render(v)));
        } else {
            lemma_integer_token(v, integer_pattern(render(v)));
        }
        lemma_value_text_bare(v);
        let r = render(v);
        assert forall|t: int| 0 <= t < r.len() implies #[trigger] r[t] != '\\' by {
            assert(plain_char(r[t]));
        }
        assert(plain_char(r[0]));
        assert(unquoted(r) == r);
        lemma_unescaped_none(r, '"');
        lemma_unescaped_none(r, '\\');
    }
}

/// The fields read from the pairs of keys `ks` and bare values `vs`.
proof fn lemma_fields_from_pairs(ks: Seq<Seq<char>>, vs: Seq<FieldValueView>, n: nat)
    requires
        ks.len() == vs.len(),
        n <= ks.len(),
        all_plain(ks),
        forall|a: int, b: int| 0 <= a < b < ks.len() ==> ks[a] != ks[b],
        forall|a: int| 0 <= a < vs.len() ==> value_ok(#[trigger] vs[a]),
    ensures
        fields_from(interleaved(ks, vs.map_values(|v: FieldValueView| value_token(v))), n) == Ok::<
            Seq<(Seq<char>, FieldValueView)>,
            crate::error::SetError,
        >(Seq::new(n, |j: int| (ks[j], read_back(vs[j])))),
    decreases n,
{
    let rs = vs.map_values(|v: FieldValueView| value_token(v));
    let il = interleaved(ks, rs);
    if n == 0 {
        assert(Seq::new(0, |j: int| (ks[j], read_back(vs[j]))) == Seq::<
            (Seq<char>, FieldValueView),
        >::empty());
    } else {
        lemma_fields_from_pairs(ks, vs, (n - 1) as nat);
        lemma_interleaved(ks, rs);
        let prev = Seq::new((n - 1) as nat, |j: int| (ks[j], read_back(vs[j])));
        let k = ks[n - 1];
        assert(il[2 * (n - 1)] == k);
        assert(il[2 * (n - 1) + 1] == value_token(vs[n - 1]));
        assert(2 * n - 2 == 2 * (n - 1));
        assert(2 * n - 1 == 2 * (n - 1) + 1);
        lemma_read_back(vs[n - 1]);
        assert(k.len() > 0 && plain_text(k));
        assert forall|t: int| 0 <= t < k.len() implies #[trigger] k[t] != '\\' by {
            assert(plain_char(k[t]));
        }
        lemma_unescaped_none(k, '=');
        lemma_unescaped_none(k, ',');
        lemma_unescaped_none(k, ' ');
        assert(FieldKey::unescape_view(k) == k);
        assert forall|j: int| 0 <= j < prev.len() implies (#[trigger] prev[j]).0 != k by {
            assert(prev[j].0 == ks[j]);
        }
        crate::point::lemma_first_index(prev, k, prev.len() as int);
        assert(put(prev, k, read_back(vs[n - 1])) == prev.push((k, read_back(vs[n - 1]))));
        assert(prev.push((k, read_back(vs[n - 1]))) == Seq::new(n, |j: int| (ks[j], read_back(vs[j]))));
    }
}

/// The characters of a set written as plain `k=r` pairs.
proof fn lemma_bare_joined(ks: Seq<Seq<char>>, rs: Seq<Seq<char>>)
    requires
        ks.len() == rs.len(),
        ks.len() > 0,
        all_plain(ks),
        all_plain(rs),
    ensures
        bare_set(joined(pair_texts(ks, rs), ',')),
    decreases ks.len(),
{
    let s = pair_texts(ks, rs);
    let j = joined(s, ',');
    let t0 = ks[0] + seq!['='] + rs[0];
    assert(s[0] == t0);
    assert(ks[0].len() > 0 && plain_text(ks[0]));
    assert(rs[0].len() > 0 && plain_text(rs[0]));
    assert forall|t: int| 0 <= t < t0.len() implies plain_char(#[trigger] t0[t]) || t0[t] == '='
        || t0[t] == ',' by {
        if t < ks[0].len() {
            assert(t0[t] == ks[0][t]);
        } else if t > ks[0].len() {
            assert(t0[t] == rs[0][t - ks[0].len() - 1]);
        }
    }
    assert(t0[0] == ks[0][0]);
    assert(t0.last() == rs[0].last());
    if ks.len() == 1 {
        assert(s == seq![t0]);
    } else {
        lemma_joined_front(s, ',');
        let ks2 = ks.drop_first();
        let rs2 = rs.drop_first();
        assert(s.drop_first() == pair_texts(ks2, rs2));
        lemma_bare_joined(ks2, rs2);
        let j2 = joined(pair_texts(ks2, rs2), ',');
        assert(j == t0 + seq![','] + j2);
        assert(j.last() == j2.last());
        assert(j[0] == t0[0]);
        assert forall|t: int| 0 <= t < j.len() implies plain_char(#[trigger] j[t]) || j[t] == '='
            || j[t] == ',' by {
            if t < t0.len() {
                assert(j[t] == t0[t]);
            } else if t > t0.len() {
                assert(j[t] == j2[t - t0.len() - 1]);
            }
        }
    }
}

/// A key before `=` can be told from the text of the pair.
proof fn lemma_pair_text_inj(k1: Seq<char>, r1: Seq<char>, k2: Seq<char>, r2: Seq<char>)
    requires
        plain_text(k1),
        plain_text(k2),
        k1 + seq!['='] + r1 == k2 + seq!['='] + r2,
    ensures
        k1 == k2,
        r1 == r2,
{
    let t1 = k1 + seq!['='] + r1;
    let t2 = k2 + seq!['='] + r2;
    if k1.len() < k2.len() {
        assert(t1[k1.len() as int] == '=');
        assert(t2[k1.len() as int] == k2[k1.len() as int]);
        assert(plain_char(k2[k1.len() as int]));
    } else if k2.len() < k1.len() {
        assert(t2[k2.len() as int] == '=');
        assert(t1[k2.len() as int] == k1[k2.len() as int]);
        assert(plain_char(k1[k2.len() as int]));
    } else {
        assert(t1.subrange(0, k1.len() as int) == k1);
        assert(t2.subrange(0, k2.len() as int) == k2);
        assert(t1.skip((k1.len() + 1) as int) == r1);
        assert(t2.skip((k2.len() + 1) as int) == r2);
    }
}

/// The text of a field of a plain key.
proof fn lemma_field_text_plain(k: Seq<char>, v: FieldValueView)
    requires
        plain_text(k),
    ensures
        field_text()((k, v)) == k + seq!['='] + value_token(v),
{
    assert forall|i: int| 0 <= i < k.len() implies !key_class()(#[trigger] k[i]) by {
        lemma_class_members(k[i]);
    }
    lemma_escaped_none(k, key_class());
}

/// A point built of plain text reads back from its line as the same point.
///
/// The point has a measurement name of plain characters that starts with
/// neither `_` nor `#`; either no tag set or a nonempty one of distinct plain
/// keys (none starting with `_`) and nonempty plain values; fields of distinct
/// plain keys (none starting with `_`) whose values are integers, booleans,
/// floats read from some token, or nonempty strings of any characters; and any
/// timestamp. Its line reads back as the same point (same name, same tags, same
/// timestamp), with as many fields, each key having a value of the same text.
#[verifier::rlimit(100)]
pub proof fn lemma_round_trip(
    m: Seq<char>,
    tags: Option<Seq<(Seq<char>, Seq<char>)>>,
    fields: Seq<(Seq<char>, FieldValueView)>,
    ts: Option<i64>,
)
    requires
        m.len() > 0,
        m[0] != '_',
        m[0] != '#',
        plain_text(m),
        tags is Some ==> tags->Some_0.len() > 0 && plain_tags(tags->Some_0) && forall|i: int|
            0 <= i < tags->Some_0.len() ==> (#[trigger] tags->Some_0[i]).0[0] != '_',
        fields.len() > 0,
        forall|i: int|
            0 <= i < fields.len() ==> (#[trigger] fields[i]).0.len() > 0 && fields[i].0[0] != '_'
                && plain_text(fields[i].0) && value_ok(fields[i].1),
        forall|a: int, b: int| 0 <= a < b < fields.len() ==> fields[a].0 != fields[b].0,
    ensures
        ({
            let p = LineView { measurement: m, tags: tags, fields: fields, timestamp: ts };
            let q = parse_line_view(build_view(p)->Ok_0);
            &&& build_view(p) is Ok
            &&& q is Ok
            &&& same_point(q->Ok_0, p)
            &&& q->Ok_0.fields.len() == fields.len()
            &&& forall|i: int|
                0 <= i < fields.len() ==> lookup(q->Ok_0.fields, (#[trigger] fields[i]).0) is Some
                    && render(lookup(q->Ok_0.fields, fields[i].0)->Some_0) == render(fields[i].1)
        }),
{
    broadcast use vstd::seq_lib::group_to_multiset_ensures;

    let p = LineView { measurement: m, tags: tags, fields: fields, timestamp: ts };
    let n = fields.len();
    // The texts of the fields, and their sorted order.
    let texts = fields.map_values(field_text());
    assert forall|i: int| 0 <= i < n implies #[trigger] texts[i] == fields[i].0 + seq!['=']
        + value_token(fields[i].1) by {
        lemma_field_text_plain(fields[i].0, fields[i].1);
    }
    assert forall|a: int, b: int| 0 <= a < n && 0 <= b < n && a != b implies texts[a]
        != texts[b] by {
        if texts[a] == texts[b] {
            lemma_pair_text_inj(
                fields[a].0,
                value_token(fields[a].1),
                fields[b].0,
                value_token(fields[b].1),
            );
            if a < b {
                assert(fields[a].0 != fields[b].0);
            } else {
                assert(fields[b].0 != fields[a].0);
            }
        }
    }
    assert(texts.no_duplicates());
    let sorted = sorted_texts(texts);
    lemma_text_order_total();
    texts.lemma_sort_by_ensures(text_order());
    texts.to_multiset_ensures();
    sorted.to_multiset_ensures();
    texts.lemma_multiset_has_no_duplicates();
    sorted.lemma_multiset_has_no_duplicates_conv();
    assert(sorted.len() == n);
    // Each sorted text is the text of one field.
    assert forall|j: int| 0 <= j < n implies exists|i: int| 0 <= i < n && #[trigger] sorted[j] == #[trigger] texts[i] by {
        assert(sorted.contains(sorted[j]));
        assert(texts.to_multiset().count(sorted[j]) > 0);
        assert(texts.contains(sorted[j]));
    }
    let idx = |j: int| choose|i: int| 0 <= i < n && sorted[j] == #[trigger] texts[i];
    let ks = Seq::new(n, |j: int| fields[idx(j)].0);
    let vs = Seq::new(n, |j: int| fields[idx(j)].1);
    let rs = vs.map_values(|v: FieldValueView| value_token(v));
    assert forall|j: int| 0 <= j < n implies #[trigger] sorted[j] == ks[j] + seq!['='] + rs[j] by {
        assert(0 <= idx(j) < n && sorted[j] == texts[idx(j)]);
    }
    assert(sorted == pair_texts(ks, rs));
    assert forall|a: int, b: int| 0 <= a < b < ks.len() implies ks[a] != ks[b] by {
        assert(sorted[a] != sorted[b]);
        if ks[a] == ks[b] {
            assert(0 <= idx(a) < n && sorted[a] == texts[idx(a)]);
            assert(0 <= idx(b) < n && sorted[b] == texts[idx(b)]);
            if idx(a) != idx(b) {
                if idx(a) < idx(b) {
                    assert(fields[idx(a)].0 != fields[idx(b)].0);
                } else {
                    assert(fields[idx(b)].0 != fields[idx(a)].0);
                }
            }
        }
    }
    assert forall|j: int| 0 <= j < n implies (#[trigger] ks[j]).len() > 0 && plain_text(ks[j]) by {
        assert(0 <= idx(j) < n);
    }
    assert forall|j: int| 0 <= j < n implies value_ok(#[trigger] vs[j]) by {
        assert(0 <= idx(j) < n);
    }
    assert forall|j: int| 0 <= j < n implies token_ok(#[trigger] rs[j]) by {
        lemma_value_token_ok(vs[j]);
    }
    // What is written.
    assert forall|i: int| 0 <= i < m.len() implies !measurement_class()(#[trigger] m[i]) by {
        lemma_class_members(m[i]);
    }
    lemma_escaped_none(m, measurement_class());
    lemma_first_error_none(fields, field_error());
    let f = joined(sorted, ',');
    // What is read.
    lemma_set_passes(ks, rs);
    lemma_set_words_pairs(ks, rs);
    lemma_interleaved(ks, rs);
    assert(interleaved(ks, rs).len() / 2 == n);
    lemma_fields_from_pairs(ks, vs, n);
    let read = Seq::new(n, |j: int| (ks[j], read_back(vs[j])));
    assert(field_set_view(f) == Ok::<Seq<(Seq<char>, FieldValueView)>, crate::error::SetError>(read));
    let line = match tags {
        None => fields_line(m, f, ts),
        Some(tg) => {
            let (tks, tvs) = lemma_sorted_tags(tg);
            let tj = joined(pair_texts(tks, tvs), ',');
            lemma_first_error_none(tg, tag_error());
            assert forall|i: int| 0 <= i < tg.len() implies (#[trigger] tag_error()(tg[i])) is None by {
                assert(tg[i].0[0] != '_');
            }
            lemma_bare_joined(tks, tvs);
            lemma_set_words_pairs(tks, tvs);
            lemma_interleaved(tks, tvs);
            assert(interleaved(tks, tvs).len() / 2 == tg.len());
            lemma_tags_from_pairs(tks, tvs, tg.len());
            lemma_parse_tagged(m, tj, f, ts);
            let tail = match ts {
                Some(x) => seq![' '] + int_text(x as int),
                None => Seq::<char>::empty(),
            };
            assert(m + (seq![','] + tj) + seq![' '] + f + tail == tagged_line(m, tj, f, ts));
            tagged_line(m, tj, f, ts)
        },
    };
    assert(build_view(p) == Ok::<Seq<char>, crate::error::BuilderError>(line));
    if tags is None {
        lemma_parse_fields(m, f, ts);
    }
    let q = parse_line_view(line)->Ok_0;
    assert(q.fields == read);
    assert forall|i: int| 0 <= i < n implies lookup(q.fields, (#[trigger] fields[i]).0) is Some
        && render(lookup(q.fields, fields[i].0)->Some_0) == render(fields[i].1) by {
        assert(texts.contains(texts[i]));
        assert(sorted.to_multiset().count(texts[i]) > 0);
        assert(sorted.contains(texts[i]));
        let s = choose|s: int| 0 <= s < n && sorted[s] == texts[i];
        lemma_pair_text_inj(ks[s], rs[s], fields[i].0, value_token(fields[i].1));
        lemma_value_token_inj(vs[s], fields[i].1);
        assert forall|j: int| 0 <= j < s implies (#[trigger] read[j]).0 != fields[i].0 by {
            assert(read[j].0 == ks[j]);
        }
        crate::point::lemma_first_index(read, fields[i].0, s);
        lemma_read_back(vs[s]);
    }
}

/// The tags read from the pairs of keys `ks` and values `rs`.
proof fn lemma_tags_from_pairs(ks: Seq<Seq<char>>, rs: Seq<Seq<char>>, n: nat)
    requires
        ks.len() == rs.len(),
        n <= ks.len(),
        all_plain(ks),
        all_plain(rs),
        forall|a: int, b: int| 0 <= a < b < ks.len() ==> ks[a] != ks[b],
    ensures
        tags_from(interleaved(ks, rs), n) == Seq::new(n, |j: int| (ks[j], rs[j])),
    decreases n,
{
    let il = interleaved(ks, rs);
    if n == 0 {
        assert(Seq::new(0, |j: int| (ks[j], rs[j])) == Seq::<(Seq<char>, Seq<char>)>::empty());
    } else {
        lemma_tags_from_pairs(ks, rs, (n - 1) as nat);
        lemma_interleaved(ks, rs);
        let prev = Seq::new((n - 1) as nat, |j: int| (ks[j], rs[j]));
        let k = ks[n - 1];
        let r = rs[n - 1];
        assert(il[2 * (n - 1)] == k);
        assert(il[2 * (n - 1) + 1] == r);
        assert(2 * n - 2 == 2 * (n - 1));
        assert(2 * n - 1 == 2 * (n - 1) + 1);
        assert(k.len() > 0 && plain_text(k));
        assert(r.len() > 0 && plain_text(r));
        assert forall|t: int| 0 <= t < k.len() implies #[trigger] k[t] != '\\' by {
            assert(plain_char(k[t]));
        }
        assert forall|t: int| 0 <= t < r.len() implies #[trigger] r[t] != '\\' by {
            assert(plain_char(r[t]));
        }
        lemma_unescaped_none(k, '=');
        lemma_unescaped_none(k, ',');
        lemma_unescaped_none(k, ' ');
        lemma_unescaped_none(r, '=');
        lemma_unescaped_none(r, ',');
        lemma_unescaped_none(r, ' ');
        assert(TagKey::unescape_view(k) == k);
        assert(TagValue::unescape_view(r) == r);
        assert forall|j: int| 0 <= j < prev.len() implies (#[trigger] prev[j]).0 != k by {
            assert(prev[j].0 == ks[j]);
        }
        crate::point::lemma_first_index(prev, k, prev.len() as int);
        assert(put(prev, k, r) == prev.push((k, r)));
        assert(prev.push((k, r)) == Seq::new(n, |j: int| (ks[j], rs[j])));
    }
}

/// The text of a tag of a plain key and value.
proof fn lemma_tag_text_plain(k: Seq<char>, r: Seq<char>)
    requires
        plain_text(k),
        plain_text(r),
    ensures
        tag_text()((k, r)) == k + seq!['='] + r,
{
    assert forall|i: int| 0 <= i < k.len() implies !key_class()(#[trigger] k[i]) by {
        lemma_class_members(k[i]);
    }
    lemma_escaped_none(k, key_class());
    assert forall|i: int| 0 <= i < r.len() implies !key_class()(#[trigger] r[i]) by {
        lemma_class_members(r[i]);
    }
    lemma_escaped_none(r, key_class());
}

/// Whether a tag list has nonempty plain keys and values, and no key twice.
pub open spec fn plain_tags(tags: Seq<(Seq<char>, Seq<char>)>) -> bool {
    &&& forall|i: int|
        0 <= i < tags.len() ==> (#[trigger] tags[i]).0.len() > 0 && plain_text(tags[i].0)
            && tags[i].1.len() > 0 && plain_text(tags[i].1)
    &&& forall|a: int, b: int| 0 <= a < b < tags.len() ==> tags[a].0 != tags[b].0
}

/// The sorted texts of plain tags, taken apart into keys and values, hold the
/// same tags.
#[verifier::rlimit(100)]
proof fn lemma_sorted_tags(tags: Seq<(Seq<char>, Seq<char>)>) -> (r: (Seq<Seq<char>>, Seq<Seq<char>>))
    requires
        plain_tags(tags),
    ensures
        sorted_texts(tags.map_values(tag_text())) == pair_texts(r.0, r.1),
        r.0.len() == r.1.len() == tags.len(),
        all_plain(r.0),
        all_plain(r.1),
        forall|a: int, b: int| 0 <= a < b < r.0.len() ==> r.0[a] != r.0[b],
        pairs_map(Seq::new(tags.len(), |j: int| (r.0[j], r.1[j]))) == pairs_map(tags),
{
    broadcast use vstd::seq_lib::group_to_multiset_ensures;

    let n = tags.len();
    let texts = tags.map_values(tag_text());
    assert forall|i: int| 0 <= i < n implies #[trigger] texts[i] == tags[i].0 + seq!['=']
        + tags[i].1 by {
        lemma_tag_text_plain(tags[i].0, tags[i].1);
    }
    assert forall|a: int, b: int| 0 <= a < n && 0 <= b < n && a != b implies texts[a]
        != texts[b] by {
        if texts[a] == texts[b] {
            lemma_pair_text_inj(tags[a].0, tags[a].1, tags[b].0, tags[b].1);
            if a < b {
                assert(tags[a].0 != tags[b].0);
            } else {
                assert(tags[b].0 != tags[a].0);
            }
        }
    }
    assert(texts.no_duplicates());
    let sorted = sorted_texts(texts);
    lemma_text_order_total();
    texts.lemma_sort_by_ensures(text_order());
    texts.to_multiset_ensures();
    sorted.to_multiset_ensures();
    texts.lemma_multiset_has_no_duplicates();
    sorted.lemma_multiset_has_no_duplicates_conv();
    assert(sorted.len() == n);
    assert forall|j: int| 0 <= j < n implies exists|i: int|
        0 <= i < n && #[trigger] sorted[j] == #[trigger] texts[i] by {
        assert(sorted.contains(sorted[j]));
        assert(texts.to_multiset().count(sorted[j]) > 0);
        assert(texts.contains(sorted[j]));
    }
    let idx = |j: int| choose|i: int| 0 <= i < n && sorted[j] == #[trigger] texts[i];
    let ks = Seq::new(n, |j: int| tags[idx(j)].0);
    let rs = Seq::new(n, |j: int| tags[idx(j)].1);
    assert forall|j: int| 0 <= j < n implies #[trigger] sorted[j] == ks[j] + seq!['='] + rs[j] by {
        assert(0 <= idx(j) < n && sorted[j] == texts[idx(j)]);
    }
    assert(sorted == pair_texts(ks, rs));
    assert forall|a: int, b: int| 0 <= a < b < ks.len() implies ks[a] != ks[b] by {
        assert(sorted[a] != sorted[b]);
        if ks[a] == ks[b] {
            assert(0 <= idx(a) < n && sorted[a] == texts[idx(a)]);
            assert(0 <= idx(b) < n && sorted[b] == texts[idx(b)]);
            if idx(a) != idx(b) {
                if idx(a) < idx(b) {
                    assert(tags[idx(a)].0 != tags[idx(b)].0);
                } else {
                    assert(tags[idx(b)].0 != tags[idx(a)].0);
                }
            }
        }
    }
    assert forall|j: int| 0 <= j < n implies (#[trigger] ks[j]).len() > 0 && plain_text(ks[j]) by {
        assert(0 <= idx(j) < n);
    }
    assert forall|j: int| 0 <= j < n implies (#[trigger] rs[j]).len() > 0 && plain_text(rs[j]) by {
        assert(0 <= idx(j) < n);
    }
    let read = Seq::new(n, |j: int| (ks[j], rs[j]));
    assert forall|k: Seq<char>| #[trigger] pairs_map(read).contains_key(k) == pairs_map(
        tags,
    ).contains_key(k) && (pairs_map(read).contains_key(k) ==> pairs_map(read)[k] == pairs_map(
        tags,
    )[k]) by {
        lemma_first_index_found(read, k);
        lemma_first_index_found(tags, k);
        if first_index(read, k) is Some {
            let j = first_index(read, k)->Some_0;
            let i = idx(j);
            assert(0 <= i < n && sorted[j] == texts[i]);
            lemma_pair_text_inj(ks[j], rs[j], tags[i].0, tags[i].1);
            assert forall|b: int| 0 <= b < i implies (#[trigger] tags[b]).0 != k by {
                assert(tags[b].0 != tags[i].0);
            }
            crate::point::lemma_first_index(tags, k, i);
        }
        if first_index(tags, k) is Some {
            let i = first_index(tags, k)->Some_0;
            assert(texts.contains(texts[i]));
            assert(sorted.to_multiset().count(texts[i]) > 0);
            assert(sorted.contains(texts[i]));
            let s = choose|s: int| 0 <= s < n && sorted[s] == texts[i];
            lemma_pair_text_inj(ks[s], rs[s], tags[i].0, tags[i].1);
            assert forall|b: int| 0 <= b < s implies (#[trigger] read[b]).0 != k by {
                assert(read[b].0 == ks[b]);
                assert(ks[b] != ks[s]);
            }
            crate::point::lemma_first_index(read, k, s);
        }
    }
    assert(pairs_map(read) =~= pairs_map(tags));
    (ks, rs)
}

/// The line of a point with the tag set `tj` and the field set `f`.
spec fn tagged_line(m: Seq<char>, tj: Seq<char>, f: Seq<char>, ts: Option<i64>) -> Seq<char> {
    let tail = match ts {
        Some(x) => seq![' '] + int_text(x as int),
        None => Seq::<char>::empty(),
    };
    m + seq![','] + tj + seq![' '] + f + tail
}

#[verifier::rlimit(100)]
proof fn lemma_parse_tagged(m: Seq<char>, tj: Seq<char>, f: Seq<char>, ts: Option<i64>)
    requires
        m.len() > 0,
        m[0] != '#',
        plain_text(m),
        bare_set(tj),
        tag_set_view(tj) is Ok,
        set_passes(f),
        field_set_view(f) is Ok,
    ensures
        ({
            let q = parse_line_view(tagged_line(m, tj, f, ts));
            &&& q is Ok
            &&& q->Ok_0.measurement == m
            &&& q->Ok_0.tags == Some(tag_set_view(tj)->Ok_0)
            &&& q->Ok_0.timestamp == ts
            &&& q->Ok_0.fields == field_set_view(f)->Ok_0
        }),
{
    let line = tagged_line(m, tj, f, ts);
    let ident = m + seq![','] + tj;
    let a = ident.len();
    let b = f.len();
    assert(line.subrange(0, a as int) == ident);
    assert(line[a as int] == ' ');
    assert(line.subrange((a + 1) as int, (a + 1 + b) as int) == f);
    assert(line[0] == m[0]);
    assert(plain_char(m[0]));
    assert(ident.last() == tj.last());
    match ts {
        Some(y) => {
            lemma_i64_text(y);
            assert(line.last() == int_text(y as int).last());
            assert(line[(a + 1 + b) as int] == ' ');
            assert(line.subrange((a + 2 + b) as int, line.len() as int) == int_text(y as int));
            lemma_trimmed_same(int_text(y as int));
        },
        None => {
            assert(line.last() == f.last());
            assert(line.len() == a + 1 + b);
            assert(line.subrange(line.len() as int, line.len() as int) == Seq::<char>::empty());
        },
    }
    lemma_trimmed_same(line);
    assert forall|t: int| 0 <= t < a implies #[trigger] line[t] != '\\' && line[t] != '"'
        && line[t] != ' ' by {
        assert(line[t] == ident[t]);
        if t < m.len() {
            assert(ident[t] == m[t]);
            assert(plain_char(m[t]));
        } else if t > m.len() {
            assert(ident[t] == tj[t - m.len() - 1]);
            assert(plain_char(tj[t - m.len() - 1]) || tj[t - m.len() - 1] == '=' || tj[t - m.len()
                - 1] == ',');
        }
    }
    lemma_part_end_run(line, 0, a);
    lemma_trimmed_same(ident);
    assert forall|t: int| 0 <= t < m.len() implies #[trigger] ident[t] != '\\' && ident[t]
        != ',' by {
        assert(ident[t] == m[t]);
        assert(plain_char(m[t]));
    }
    lemma_name_end_prefix(ident, 0, m.len());
    assert(ident.subrange(0, m.len() as int) == m);
    assert(ident.subrange((m.len() + 1) as int, ident.len() as int) == tj);
    assert(line.subrange((a + 1) as int, (a + 1 + b) as int) == f);
    assert(part_end(line, (a + 1) as nat, false, false) == part_end(
        line,
        (a + 1 + b) as nat,
        false,
        false,
    ));
    if a + 1 + b < line.len() {
        assert(line[(a + 1 + b) as int] == ' ');
    }
    assert(part_end(line, (a + 1 + b) as nat, false, false) == a + 1 + b);
    lemma_trimmed_same(f);
    assert forall|t: int| 0 <= t < m.len() implies #[trigger] m[t] != '\\' by {
        assert(plain_char(m[t]));
    }
    lemma_unescaped_none(m, ',');
    lemma_unescaped_none(m, ' ');
    assert(Measurement::unescape_view(m) == m);
}

/// A name with no backslash and no comma before index `j`, where a comma
/// stands, ends there.
proof fn lemma_name_end_prefix(s: Seq<char>, i: nat, j: nat)
    requires
        i <= j < s.len(),
        forall|t: int| i <= t < j ==> #[trigger] s[t] != '\\' && s[t] != ',',
        s[j as int] == ',',
    ensures
        name_end(s, i, false) == j,
    decreases j - i,
{
    if i < j {
        lemma_name_end_prefix(s, i + 1, j);
    }
}

/// Where `x` holds `pre + rest` from index `i`, it holds `rest` after `pre`.
proof fn lemma_subrange_rest(x: Seq<char>, i: int, pre: Seq<char>, rest: Seq<char>)
    requires
        0 <= i,
        i + pre.len() + rest.len() <= x.len(),
        x.subrange(i, i + pre.len() + rest.len()) == pre + rest,
    ensures
        x.subrange(i + pre.len(), i + pre.len() + rest.len()) == rest,
        forall|t: int| 0 <= t < pre.len() ==> x[i + t] == #[trigger] pre[t],
{
    assert forall|t: int| 0 <= t < rest.len() implies #[trigger] x.subrange(
        i + pre.len(),
        i + pre.len() + rest.len(),
    )[t] == rest[t] by {
        let big = x.subrange(i, i + pre.len() + rest.len());
        assert(big[pre.len() + t] == x[i + pre.len() + t]);
        assert((pre + rest)[pre.len() + t] == rest[t]);
        assert(x.subrange(i + pre.len(), i + pre.len() + rest.len())[t] == x[i + pre.len() + t]);
    }
    assert(x.subrange(i + pre.len(), i + pre.len() + rest.len()) =~= rest);
    assert forall|t: int| 0 <= t < pre.len() implies x[i + t] == #[trigger] pre[t] by {
        let big = x.subrange(i, i + pre.len() + rest.len());
        assert(big[t] == x[i + t]);
        assert((pre + rest)[t] == pre[t]);
    }
}

/// Inside quotes, an escaped string never ends a part, and leaves the escape
/// flag clear.
proof fn lemma_part_end_escaped(x: Seq<char>, i: nat, s: Seq<char>)
    requires
        i + escaped(s, string_class()).len() <= x.len(),
        x.subrange(i as int, (i + escaped(s, string_class()).len()) as int) == escaped(
            s,
            string_class(),
        ),
    ensures
        part_end(x, i, true, false) == part_end(
            x,
            (i + escaped(s, string_class()).len()) as nat,
            true,
            false,
        ),
    decreases s.len(),
{
    let es = escaped(s, string_class());
    if s.len() > 0 {
        let c = s[0];
        let rest = s.drop_first();
        let er = escaped(rest, string_class());
        lemma_class_members(c);
        if string_class()(c) {
            assert(es == seq!['\\', c] + er);
            lemma_subrange_rest(x, i as int, seq!['\\', c], er);
            assert(x[i as int + 0] == seq!['\\', c][0]);
            assert(x[i as int + 1] == seq!['\\', c][1]);
            assert(part_end(x, i, true, false) == part_end(x, (i + 1) as nat, true, true));
            assert(part_end(x, (i + 1) as nat, true, true) == part_end(
                x,
                (i + 2) as nat,
                true,
                false,
            ));
            lemma_part_end_escaped(x, (i + 2) as nat, rest);
        } else {
            assert(es == seq![c] + er);
            lemma_subrange_rest(x, i as int, seq![c], er);
            assert(x[i as int + 0] == seq![c][0]);
            assert(part_end(x, i, true, false) == part_end(x, (i + 1) as nat, true, false));
            lemma_part_end_escaped(x, (i + 1) as nat, rest);
        }
    }
}

/// Inside quotes, an escaped string never ends a word, adds to it whole, and
/// leaves the escape flag clear.
proof fn lemma_set_split_escaped(
    x: Seq<char>,
    i: nat,
    s: Seq<char>,
    w: Seq<char>,
    ws: Seq<Seq<char>>,
)
    requires
        i + escaped(s, string_class()).len() <= x.len(),
        x.subrange(i as int, (i + escaped(s, string_class()).len()) as int) == escaped(
            s,
            string_class(),
        ),
    ensures
        set_split(x, i, true, false, w, ws) == set_split(
            x,
            (i + escaped(s, string_class()).len()) as nat,
            true,
            false,
            w + escaped(s, string_class()),
            ws,
        ),
    decreases s.len(),
{
    let es = escaped(s, string_class());
    if s.len() > 0 {
        let c = s[0];
        let rest = s.drop_first();
        let er = escaped(rest, string_class());
        lemma_class_members(c);
        if string_class()(c) {
            assert(es == seq!['\\', c] + er);
            lemma_subrange_rest(x, i as int, seq!['\\', c], er);
            assert(x[i as int + 0] == seq!['\\', c][0]);
            assert(x[i as int + 1] == seq!['\\', c][1]);
            assert(set_split(x, i, true, false, w, ws) == set_split(
                x,
                (i + 1) as nat,
                true,
                true,
                w.push('\\'),
                ws,
            ));
            assert(set_split(x, (i + 1) as nat, true, true, w.push('\\'), ws) == set_split(
                x,
                (i + 2) as nat,
                true,
                false,
                w.push('\\').push(c),
                ws,
            ));
            lemma_set_split_escaped(x, (i + 2) as nat, rest, w.push('\\').push(c), ws);
            assert(w.push('\\').push(c) + er == w + es);
        } else {
            assert(es == seq![c] + er);
            lemma_subrange_rest(x, i as int, seq![c], er);
            assert(x[i as int + 0] == seq![c][0]);
            assert(set_split(x, i, true, false, w, ws) == set_split(
                x,
                (i + 1) as nat,
                true,
                false,
                w.push(c),
                ws,
            ));
            lemma_set_split_escaped(x, (i + 1) as nat, rest, w.push(c), ws);
            assert(w.push(c) + er == w + es);
        }
    } else {
        assert(w + es == w);
    }
}

/// A run of characters other than backslash, quote and space leaves a part
/// going, in the state it was.
proof fn lemma_part_end_pass(x: Seq<char>, i: nat, j: nat)
    requires
        i <= j <= x.len(),
        forall|t: int| i <= t < j ==> #[trigger] x[t] != '\\' && x[t] != '"' && x[t] != ' ',
    ensures
        part_end(x, i, false, false) == part_end(x, j, false, false),
    decreases j - i,
{
    if i < j {
        lemma_part_end_pass(x, i + 1, j);
    }
}

/// A nonempty string, which a build accepts as a field value.
pub open spec fn quotable(s: Seq<char>) -> bool {
    s.len() > 0
}

/// The text of a string value in a line: escaped, between double quotes.
spec fn string_token(s: Seq<char>) -> Seq<char> {
    seq!['"'] + escaped(s, string_class()) + seq!['"']
}

/// Whether `r` is the text of a quotable string value.
spec fn is_string_token(r: Seq<char>) -> bool {
    exists|s: Seq<char>| quotable(s) && r == string_token(s)
}

/// Whether `r` can stand as a value in a set: bare, or a quoted string.
spec fn token_ok(r: Seq<char>) -> bool {
    bare_value(r) || is_string_token(r)
}

/// A value token adds to the word under way, whole, and leaves the state as it
/// was.
proof fn lemma_token_set_split(x: Seq<char>, pos: nat, r: Seq<char>, ws: Seq<Seq<char>>)
    requires
        token_ok(r),
        pos + r.len() <= x.len(),
        x.subrange(pos as int, (pos + r.len()) as int) == r,
    ensures
        set_split(x, pos, false, false, seq![], ws) == set_split(
            x,
            (pos + r.len()) as nat,
            false,
            false,
            r,
            ws,
        ),
        part_end(x, pos, false, false) == part_end(x, (pos + r.len()) as nat, false, false),
{
    if bare_value(r) {
        assert forall|t: int| pos <= t < pos + r.len() implies #[trigger] x[t] != '\\' && x[t]
            != '"' && x[t] != '=' && x[t] != ',' && x[t] != ' ' by {
            assert(x[t] == x.subrange(pos as int, (pos + r.len()) as int)[t - pos]);
            assert(plain_char(r[t - pos]));
        }
        lemma_set_split_run(x, pos, (pos + r.len()) as nat, seq![], ws);
        assert(Seq::<char>::empty() + x.subrange(pos as int, (pos + r.len()) as int) == r);
        lemma_part_end_pass(x, pos, (pos + r.len()) as nat);
    } else {
        let s = choose|s: Seq<char>| quotable(s) && r == string_token(s);
        let e = escaped(s, string_class());
        assert(r == seq!['"'] + (e + seq!['"']));
        lemma_subrange_rest(x, pos as int, seq!['"'], e + seq!['"']);
        assert(x[pos as int + 0] == seq!['"'][0]);
        let x1 = x.subrange((pos + 1) as int, (pos + r.len()) as int);
        assert(x1 == e + seq!['"']);
        assert(x.subrange((pos + 1) as int, (pos + 1 + e.len()) as int) == e) by {
            assert forall|t: int| 0 <= t < e.len() implies #[trigger] x.subrange(
                (pos + 1) as int,
                (pos + 1 + e.len()) as int,
            )[t] == e[t] by {
                assert(x1[t] == x[pos + 1 + t]);
                assert((e + seq!['"'])[t] == e[t]);
            }
            assert(x.subrange((pos + 1) as int, (pos + 1 + e.len()) as int) =~= e);
        }
        assert(x[(pos + 1 + e.len()) as int] == '"') by {
            assert(x1[e.len() as int] == x[(pos + 1 + e.len()) as int]);
            assert((e + seq!['"'])[e.len() as int] == '"');
        }
        // The word.
        assert(set_split(x, pos, false, false, seq![], ws) == set_split(
            x,
            (pos + 1) as nat,
            true,
            false,
            seq!['"'],
            ws,
        ));
        lemma_set_split_escaped(x, (pos + 1) as nat, s, seq!['"'], ws);
        assert(set_split(x, (pos + 1 + e.len()) as nat, true, false, seq!['"'] + e, ws)
            == set_split(x, (pos + r.len()) as nat, false, false, (seq!['"'] + e).push('"'), ws));
        assert((seq!['"'] + e).push('"') == r);
        // The part.
        assert(part_end(x, pos, false, false) == part_end(x, (pos + 1) as nat, true, false));
        lemma_part_end_escaped(x, (pos + 1) as nat, s);
        assert(part_end(x, (pos + 1 + e.len()) as nat, true, false) == part_end(
            x,
            (pos + r.len()) as nat,
            false,
            false,
        ));
    }
}

/// Whether a part of a line runs over `f` whole, in the state it began in,
/// and `f` neither starts nor ends with white space.
spec fn set_passes(f: Seq<char>) -> bool {
    &&& f.len() > 0
    &&& !is_ws(f[0])
    &&& !is_ws(f.last())
    &&& forall|x: Seq<char>, i: nat|
        i + f.len() <= x.len() && #[trigger] x.subrange(i as int, (i + f.len()) as int) == f
            ==> part_end(x, i, false, false) == part_end(x, (i + f.len()) as nat, false, false)
}

/// The first and last characters of a set of pairs.
proof fn lemma_joined_ends(ks: Seq<Seq<char>>, rs: Seq<Seq<char>>)
    requires
        ks.len() == rs.len(),
        ks.len() > 0,
        all_plain(ks),
        all_tokens(rs),
    ensures
        joined(pair_texts(ks, rs), ',').len() > 0,
        joined(pair_texts(ks, rs), ',')[0] == ks[0][0],
        joined(pair_texts(ks, rs), ',').last() == rs.last().last(),
        rs.last().len() > 0,
    decreases ks.len(),
{
    let s = pair_texts(ks, rs);
    let t0 = ks[0] + seq!['='] + rs[0];
    assert(s[0] == t0);
    assert(ks[0].len() > 0);
    assert(token_ok(rs[rs.len() - 1]));
    if !bare_value(rs.last()) {
        let w = choose|w: Seq<char>| quotable(w) && rs.last() == string_token(w);
    }
    if ks.len() == 1 {
        assert(s == seq![t0]);
        assert(t0.last() == rs[0].last());
    } else {
        lemma_joined_front(s, ',');
        let ks2 = ks.drop_first();
        let rs2 = rs.drop_first();
        assert(s.drop_first() == pair_texts(ks2, rs2));
        lemma_joined_ends(ks2, rs2);
        assert(rs2.last() == rs.last());
    }
}

proof fn lemma_set_passes(ks: Seq<Seq<char>>, rs: Seq<Seq<char>>)
    requires
        ks.len() == rs.len(),
        ks.len() > 0,
        all_plain(ks),
        all_tokens(rs),
    ensures
        set_passes(joined(pair_texts(ks, rs), ',')),
{
    let f = joined(pair_texts(ks, rs), ',');
    lemma_joined_ends(ks, rs);
    assert(plain_char(ks[0][0]));
    assert(token_ok(rs[rs.len() - 1]));
    if bare_value(rs.last()) {
        assert(plain_char(rs.last()[rs.last().len() - 1]));
    } else {
        let w = choose|w: Seq<char>| quotable(w) && rs.last() == string_token(w);
        assert(rs.last().last() == '"');
    }
    assert forall|x: Seq<char>, i: nat|
        i + f.len() <= x.len() && #[trigger] x.subrange(i as int, (i + f.len()) as int) == f
            implies part_end(x, i, false, false) == part_end(x, (i + f.len()) as nat, false, false) by {
        lemma_split_pairs(x, i, ks, rs, seq![]);
    }
}

proof fn lemma_leading_zeros(ds: Seq<char>)
    ensures
        leading_zeros(ds) <= ds.len(),
        forall|i: int| 0 <= i < leading_zeros(ds) ==> #[trigger] ds[i] == '0',
        leading_zeros(ds) < ds.len() ==> ds[leading_zeros(ds) as int] != '0',
    decreases ds.len(),
{
    if ds.len() > 0 && ds[0] == '0' {
        lemma_leading_zeros(ds.drop_first());
        assert forall|i: int| 0 <= i < leading_zeros(ds) implies #[trigger] ds[i] == '0' by {
            if i > 0 {
                assert(ds[i] == ds.drop_first()[i - 1]);
            }
        }
    }
}

proof fn lemma_trailing_zeros(ds: Seq<char>)
    ensures
        trailing_zeros(ds) <= ds.len(),
        forall|i: int| ds.len() - trailing_zeros(ds) <= i < ds.len() ==> #[trigger] ds[i] == '0',
        trailing_zeros(ds) < ds.len() ==> ds[ds.len() - trailing_zeros(ds) - 1] != '0',
    decreases ds.len(),
{
    if ds.len() > 0 && ds.last() == '0' {
        lemma_trailing_zeros(ds.drop_last());
        assert forall|i: int| ds.len() - trailing_zeros(ds) <= i < ds.len() implies #[trigger] ds[i]
            == '0' by {
            if i < ds.len() - 1 {
                assert(ds[i] == ds.drop_last()[i]);
            }
        }
    }
}

/// Digits with no leading and no trailing zero.
spec fn stripped(d: Seq<char>) -> bool {
    &&& forall|i: int| 0 <= i < d.len() ==> is_digit(#[trigger] d[i])
    &&& d.len() > 0 ==> d[0] != '0' && d.last() != '0'
}

/// What `float_text` renders is stripped digits.
proof fn lemma_float_parts(s: Seq<char>)
    requires
        decimal_parts(s) is Some,
    ensures
        ({
            let (negative, ds, e) = decimal_parts(s)->Some_0;
            let sig = ds.skip(leading_zeros(ds) as int);
            let t = trailing_zeros(sig);
            &&& stripped(sig.take(sig.len() - t))
            &&& float_text(s) == Some(decimal_text(negative, sig.take(sig.len() - t), e + t))
        }),
{
    let (negative, ds, e) = decimal_parts(s)->Some_0;
    let i0: nat = if s.len() > 0 && (s[0] == '+' || s[0] == '-') { 1 } else { 0 };
    let i1 = digit_end(s, i0);
    let has_point = i1 < s.len() && s[i1 as int] == '.';
    let i2 = if has_point { digit_end(s, i1 + 1) } else { i1 };
    lemma_digit_end_facts(s, i0);
    if has_point {
        lemma_digit_end_facts(s, i1 + 1);
    }
    assert forall|i: int| 0 <= i < ds.len() implies is_digit(#[trigger] ds[i]) by {
        let whole = s.subrange(i0 as int, i1 as int);
        if i < whole.len() {
            assert(ds[i] == s[i0 + i]);
        } else {
            assert(ds[i] == s[i1 + 1 + (i - whole.len())]);
        }
    }
    lemma_leading_zeros(ds);
    let sig = ds.skip(leading_zeros(ds) as int);
    lemma_trailing_zeros(sig);
    let t = trailing_zeros(sig);
    let d = sig.take(sig.len() - t);
    assert forall|i: int| 0 <= i < d.len() implies is_digit(#[trigger] d[i]) by {
        assert(d[i] == ds[leading_zeros(ds) + i]);
    }
    if d.len() > 0 {
        assert(d[0] == sig[0]);
        assert(sig[0] == ds[leading_zeros(ds) as int]);
        assert(d.last() == sig[sig.len() - t - 1]);
    }
}

/// Facts of a run of digits.
proof fn lemma_digit_end_facts(s: Seq<char>, i: nat)
    requires
        i <= s.len(),
    ensures
        i <= digit_end(s, i) <= s.len(),
        forall|t: int| i <= t < digit_end(s, i) ==> is_digit(#[trigger] s[t]),
        digit_end(s, i) < s.len() ==> !is_digit(s[digit_end(s, i) as int]),
    decreases s.len() - i,
{
    if i < s.len() && is_digit(s[i as int]) {
        lemma_digit_end_facts(s, i + 1);
    }
}

proof fn lemma_trailing_zeros_after(d: Seq<char>, z: nat)
    requires
        d.len() > 0,
        d.last() != '0',
    ensures
        trailing_zeros(d + zeros(z)) == z,
    decreases z,
{
    if z > 0 {
        assert((d + zeros(z)).drop_last() == d + zeros((z - 1) as nat));
        lemma_trailing_zeros_after(d, (z - 1) as nat);
    } else {
        assert(d + zeros(0) == d);
    }
}

proof fn lemma_leading_zeros_before(z: nat, d: Seq<char>)
    requires
        d.len() > 0,
        d[0] != '0',
    ensures
        leading_zeros(zeros(z) + d) == z,
    decreases z,
{
    if z > 0 {
        assert((zeros(z) + d).drop_first() == zeros((z - 1) as nat) + d);
        lemma_leading_zeros_before((z - 1) as nat, d);
    } else {
        assert(zeros(0) + d == d);
    }
}

/// A canonical float text reads back as itself, and needs no quoting.
proof fn lemma_canonical(negative: bool, d: Seq<char>, e: int)
    requires
        stripped(d),
    ensures
        float_text(decimal_text(negative, d, e)) == Some(decimal_text(negative, d, e)),
        bare_value(decimal_text(negative, d, e)),
        is_digit(decimal_text(negative, d, e).last()),
{
    if d.len() == 0 {
        lemma_canonical_zero(negative, d, e);
    } else if e >= 0 {
        lemma_canonical_whole(negative, d, e);
    } else if d.len() > -e {
        lemma_canonical_point(negative, d, e);
    } else {
        lemma_canonical_small(negative, d, e);
    }
}

#[verifier::rlimit(100)]
proof fn lemma_canonical_zero(negative: bool, d: Seq<char>, e: int)
    requires
        stripped(d),
        d.len() == 0,
    ensures
        float_text(decimal_text(negative, d, e)) == Some(decimal_text(negative, d, e)),
        bare_value(decimal_text(negative, d, e)),
        is_digit(decimal_text(negative, d, e).last()),
{
    let sign: Seq<char> = if negative { seq!['-'] } else { Seq::empty() };
    let t = decimal_text(negative, d, e);
    let i0 = sign.len();
    assert forall|i: int| 0 <= i < d.len() implies plain_char(#[trigger] d[i]) by {
        assert(is_digit(d[i]));
    }
    let body = seq!['0'];
    assert(t == sign + body);
    lemma_digit_end_run(t, i0, t.len());
    assert(t.subrange(i0 as int, t.len() as int) == body);
    assert(leading_zeros(body) == 1) by {
        assert(body.drop_first() == Seq::<char>::empty());
        assert(leading_zeros(Seq::<char>::empty()) == 0);
        assert(body[0] == '0');
    }
    assert(body.skip(1) == Seq::<char>::empty());
    assert(Seq::<char>::empty().take(0) == Seq::<char>::empty());
    assert forall|i: int| 0 <= i < t.len() implies plain_char(#[trigger] t[i]) by {
        if negative && i == 0 {
        } else {
            assert(is_digit(t[i]) || t[i] == '.');
        }
    }
}

#[verifier::rlimit(100)]
proof fn lemma_canonical_whole(negative: bool, d: Seq<char>, e: int)
    requires
        stripped(d),
        d.len() > 0 && e >= 0,
    ensures
        float_text(decimal_text(negative, d, e)) == Some(decimal_text(negative, d, e)),
        bare_value(decimal_text(negative, d, e)),
        is_digit(decimal_text(negative, d, e).last()),
{
    let sign: Seq<char> = if negative { seq!['-'] } else { Seq::empty() };
    let t = decimal_text(negative, d, e);
    let i0 = sign.len();
    assert forall|i: int| 0 <= i < d.len() implies plain_char(#[trigger] d[i]) by {
        assert(is_digit(d[i]));
    }
    let z = e as nat;
    let body = d + zeros(z);
    assert(t == sign + body);
    assert forall|i: int| i0 <= i < t.len() implies is_digit(#[trigger] t[i]) by {
        assert(t[i] == body[i - i0]);
        if i - i0 < d.len() {
            assert(body[i - i0] == d[i - i0]);
        }
    }
    lemma_digit_end_run(t, i0, t.len());
    assert(t.subrange(i0 as int, t.len() as int) == body);
    assert(leading_zeros(body) == 0);
    assert(body.skip(0) == body);
    lemma_trailing_zeros_after(d, z);
    assert(body.take(body.len() - z) == d);
    assert forall|i: int| 0 <= i < t.len() implies plain_char(#[trigger] t[i]) by {
        if negative && i == 0 {
        } else {
            assert(is_digit(t[i]) || t[i] == '.');
        }
    }
}

#[verifier::rlimit(100)]
proof fn lemma_canonical_point(negative: bool, d: Seq<char>, e: int)
    requires
        stripped(d),
        d.len() > 0 && e < 0 && d.len() > -e,
    ensures
        float_text(decimal_text(negative, d, e)) == Some(decimal_text(negative, d, e)),
        bare_value(decimal_text(negative, d, e)),
        is_digit(decimal_text(negative, d, e).last()),
{
    let sign: Seq<char> = if negative { seq!['-'] } else { Seq::empty() };
    let t = decimal_text(negative, d, e);
    let i0 = sign.len();
    assert forall|i: int| 0 <= i < d.len() implies plain_char(#[trigger] d[i]) by {
        assert(is_digit(d[i]));
    }
    let p = d.len() + e;
    let whole = d.take(p);
    let fraction = d.skip(p);
    assert(t == sign + whole + seq!['.'] + fraction);
    assert forall|i: int| i0 <= i < i0 + p implies is_digit(#[trigger] t[i]) by {
        assert(t[i] == d[i - i0]);
    }
    lemma_digit_end_run(t, i0, (i0 + p) as nat);
    assert(t[i0 + p] == '.');
    assert forall|i: int| i0 + p + 1 <= i < t.len() implies is_digit(#[trigger] t[i]) by {
        assert(t[i] == d[i - i0 - 1]);
    }
    lemma_digit_end_run(t, (i0 + p + 1) as nat, t.len());
    assert(t.subrange(i0 as int, i0 + p) == whole);
    assert(t.subrange(i0 + p + 1, t.len() as int) == fraction);
    assert(whole + fraction == d);
    assert(leading_zeros(d) == 0);
    assert(d.skip(0) == d);
    assert(trailing_zeros(d) == 0);
    assert(d.take(d.len() as int) == d);
    assert forall|i: int| 0 <= i < t.len() implies plain_char(#[trigger] t[i]) by {
        if negative && i == 0 {
        } else {
            assert(is_digit(t[i]) || t[i] == '.');
        }
    }
}

/// The small case, taken apart.
#[verifier::rlimit(100)]
proof fn lemma_small_parts(negative: bool, d: Seq<char>, e: int)
    requires
        stripped(d),
        d.len() > 0 && e < 0 && d.len() <= -e,
    ensures
        decimal_parts(decimal_text(negative, d, e)) == Some(
            (negative, zeros((-e - d.len() + 1) as nat) + d, e),
        ),
        bare_value(decimal_text(negative, d, e)),
        is_digit(decimal_text(negative, d, e).last()),
{
    let sign: Seq<char> = if negative { seq!['-'] } else { Seq::empty() };
    let t = decimal_text(negative, d, e);
    let i0 = sign.len();
    let z = (-e - d.len()) as nat;
    let body = seq!['0', '.'] + zeros(z) + d;
    assert(t == sign + body);
    assert(t[i0 as int] == '0');
    lemma_digit_end_run(t, i0, (i0 + 1) as nat);
    assert(t[(i0 + 1) as int] == '.');
    assert forall|i: int| i0 + 2 <= i < t.len() implies is_digit(#[trigger] t[i]) by {
        assert(t[i] == (zeros(z) + d)[i - i0 - 2]);
        if i - i0 - 2 >= z {
            assert((zeros(z) + d)[i - i0 - 2] == d[i - i0 - 2 - z]);
        }
    }
    lemma_digit_end_run(t, (i0 + 2) as nat, t.len());
    assert(t.subrange(i0 as int, (i0 + 1) as int) == seq!['0']);
    assert(t.subrange((i0 + 2) as int, t.len() as int) == zeros(z) + d);
    let ds = seq!['0'] + (zeros(z) + d);
    assert(ds == zeros(z + 1) + d);
    assert(decimal_parts(t) == Some((negative, ds, e)));
    assert forall|i: int| 0 <= i < t.len() implies plain_char(#[trigger] t[i]) by {
        if negative && i == 0 {
        } else {
            assert(is_digit(t[i]) || t[i] == '.');
        }
    }
}

proof fn lemma_canonical_small(negative: bool, d: Seq<char>, e: int)
    requires
        stripped(d),
        d.len() > 0 && e < 0 && d.len() <= -e,
    ensures
        float_text(decimal_text(negative, d, e)) == Some(decimal_text(negative, d, e)),
        bare_value(decimal_text(negative, d, e)),
        is_digit(decimal_text(negative, d, e).last()),
{
    lemma_small_parts(negative, d, e);
    let z = (-e - d.len() + 1) as nat;
    let ds = zeros(z) + d;
    lemma_leading_zeros_before(z, d);
    assert(ds.skip(z as int) == d);
    assert(trailing_zeros(d) == 0);
    assert(d.take(d.len() as int) == d);
}

} // verus!
