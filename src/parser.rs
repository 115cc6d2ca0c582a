//! Reading lines into data points.
//!
//! A line is split in one pass over its characters. A backslash that is not
//! itself escaped escapes the character after it (so `\\` is one escaped
//! backslash), and an unescaped double quote opens or closes a quoted
//! stretch. The first unescaped space outside quotes ends the measurement name
//! and tag set; the next one ends the field set; what is left is the
//! timestamp. The measurement name ends at its first unescaped comma, and in a
//! set an unescaped `=` or `,` outside quotes ends a key or a value.

use vstd::prelude::*;

use crate::builder::{put_field, put_tag};
use crate::element::{FieldKey, FieldValue, FieldValueView, Measurement, TagKey, TagValue};
use crate::error::{LineProtocolError, ParseError, SetError};
use crate::number::{i64_value, parse_i64};
use crate::order::texts_of;
use crate::point::{
    fields_view, lemma_put_unique, put, same_point, tags_view, unique_keys, well_formed,
    LineProtocol, LineView,
};
use crate::float::push_range;
use crate::text::{chars_of, string_of};
use crate::traits::{Convert, Format};

verus! {

/// Whether `c` is white space, as `char::is_whitespace` says: the characters
/// of Unicode's `White_Space` property.
pub open spec fn is_ws(c: char) -> bool {
    ('\u{9}' <= c && c <= '\u{d}') || c == ' ' || c == '\u{85}' || c == '\u{a0}' || c
        == '\u{1680}' || ('\u{2000}' <= c && c <= '\u{200a}') || c == '\u{2028}' || c
        == '\u{2029}' || c == '\u{202f}' || c == '\u{205f}' || c == '\u{3000}'
}

fn is_ws_exec(c: char) -> (r: bool)
    ensures
        r == is_ws(c),
{
    ('\u{9}' <= c && c <= '\u{d}') || c == ' ' || c == '\u{85}' || c == '\u{a0}' || c
        == '\u{1680}' || ('\u{2000}' <= c && c <= '\u{200a}') || c == '\u{2028}' || c
        == '\u{2029}' || c == '\u{202f}' || c == '\u{205f}' || c == '\u{3000}'
}

/// `s` without the white space it starts with.
pub open spec fn trim_start(s: Seq<char>) -> Seq<char>
    decreases s.len(),
{
    if s.len() > 0 && is_ws(s[0]) {
        trim_start(s.drop_first())
    } else {
        s
    }
}

/// `s` without the white space it ends with.
pub open spec fn trim_end(s: Seq<char>) -> Seq<char>
    decreases s.len(),
{
    if s.len() > 0 && is_ws(s.last()) {
        trim_end(s.drop_last())
    } else {
        s
    }
}

/// `s` without white space at either end, as `str::trim` gives it.
pub open spec fn trimmed(s: Seq<char>) -> Seq<char> {
    trim_end(trim_start(s))
}

/// `v[from..to]`, trimmed.
fn trim_range(v: &Vec<char>, from: usize, to: usize) -> (r: Vec<char>)
    requires
        from <= to <= v@.len(),
    ensures
        r@ == trimmed(v@.subrange(from as int, to as int)),
{
    let ghost s = v@.subrange(from as int, to as int);
    let mut a = from;
    assert(v@.subrange(a as int, to as int) == s);
    while a < to && is_ws_exec(v[a])
        invariant
            from <= a <= to <= v@.len(),
            trim_start(s) == trim_start(v@.subrange(a as int, to as int)),
        decreases to - a,
    {
        assert(v@.subrange(a as int, to as int).drop_first() == v@.subrange(a + 1, to as int));
        a = a + 1;
    }
    let ghost t = v@.subrange(a as int, to as int);
    assert(trim_start(s) == t);
    let mut b = to;
    while b > a && is_ws_exec(v[b - 1])
        invariant
            a <= b <= to,
            to <= v@.len(),
            trim_end(t) == trim_end(v@.subrange(a as int, b as int)),
        decreases b,
    {
        assert(v@.subrange(a as int, b as int).drop_last() == v@.subrange(a as int, b - 1));
        b = b - 1;
    }
    let mut out: Vec<char> = Vec::new();
    let mut j = a;
    while j < b
        invariant
            a <= j <= b <= v@.len(),
            out@ == v@.subrange(a as int, j as int),
        decreases b - j,
    {
        out.push(v[j]);
        j = j + 1;
        assert(v@.subrange(a as int, j as int) == v@.subrange(a as int, j - 1).push(v@[j - 1]));
    }
    out
}

/// Where the part of a line that starts at `i` ends: at the first space that
/// is neither escaped nor quoted, or at the end of `s`.
pub open spec fn part_end(s: Seq<char>, i: nat, in_quote: bool, escaped: bool) -> nat
    decreases s.len() - i,
{
    if i >= s.len() {
        s.len()
    } else if s[i as int] == '\\' && !escaped {
        part_end(s, i + 1, in_quote, true)
    } else if s[i as int] == '"' && !escaped {
        part_end(s, i + 1, !in_quote, escaped)
    } else if s[i as int] == ' ' && !escaped && !in_quote {
        i
    } else {
        part_end(s, i + 1, in_quote, false)
    }
}

proof fn lemma_part_end_bounds(s: Seq<char>, i: nat, in_quote: bool, escaped: bool)
    requires
        i <= s.len(),
    ensures
        i <= part_end(s, i, in_quote, escaped) <= s.len(),
    decreases s.len() - i,
{
    if i < s.len() {
        lemma_part_end_bounds(s, i + 1, true, true);
        lemma_part_end_bounds(s, i + 1, !in_quote, escaped);
        lemma_part_end_bounds(s, i + 1, in_quote, true);
        lemma_part_end_bounds(s, i + 1, in_quote, false);
    }
}

fn part_end_exec(v: &Vec<char>, start: usize) -> (r: usize)
    requires
        start <= v@.len(),
    ensures
        r == part_end(v@, start as nat, false, false),
        start <= r <= v@.len(),
{
    let mut i = start;
    let mut in_quote = false;
    let mut escaped = false;
    proof {
        lemma_part_end_bounds(v@, start as nat, false, false);
    }
    while i < v.len()
        invariant
            start <= i <= v@.len(),
            part_end(v@, start as nat, false, false) == part_end(v@, i as nat, in_quote, escaped),
        decreases v@.len() - i,
    {
        let c = v[i];
        if c == '\\' && !escaped {
            escaped = true;
        } else if c == '"' && !escaped {
            in_quote = !in_quote;
        } else if c == ' ' && !escaped && !in_quote {
            return i;
        } else {
            escaped = false;
        }
        i = i + 1;
    }
    i
}

/// Where the measurement name of `s` ends: at its first unescaped comma, or at
/// the end of `s`.
pub open spec fn name_end(s: Seq<char>, i: nat, escaped: bool) -> nat
    decreases s.len() - i,
{
    if i >= s.len() {
        s.len()
    } else if s[i as int] == '\\' && !escaped {
        name_end(s, i + 1, true)
    } else if s[i as int] == ',' && !escaped {
        i
    } else {
        name_end(s, i + 1, false)
    }
}

proof fn lemma_name_end_bounds(s: Seq<char>, i: nat, escaped: bool)
    requires
        i <= s.len(),
    ensures
        i <= name_end(s, i, escaped) <= s.len(),
    decreases s.len() - i,
{
    if i < s.len() {
        lemma_name_end_bounds(s, i + 1, true);
        lemma_name_end_bounds(s, i + 1, false);
    }
}

fn name_end_exec(v: &Vec<char>) -> (r: usize)
    ensures
        r == name_end(v@, 0, false),
        r <= v@.len(),
{
    let mut i: usize = 0;
    let mut escaped = false;
    proof {
        lemma_name_end_bounds(v@, 0, false);
    }
    while i < v.len()
        invariant
            i <= v@.len(),
            name_end(v@, 0, false) == name_end(v@, i as nat, escaped),
        decreases v@.len() - i,
    {
        let c = v[i];
        if c == '\\' && !escaped {
            escaped = true;
        } else if c == ',' && !escaped {
            return i;
        } else {
            escaped = false;
        }
        i = i + 1;
    }
    i
}

/// The words of a set, split at each `=` and `,` that is neither escaped nor
/// quoted: the words finished before index `i` are `words`, the one under way
/// is `word`. The result is the finished words and the last one.
pub open spec fn set_split(
    s: Seq<char>,
    i: nat,
    in_quote: bool,
    escaped: bool,
    word: Seq<char>,
    words: Seq<Seq<char>>,
) -> (Seq<Seq<char>>, Seq<char>)
    decreases s.len() - i,
{
    if i >= s.len() {
        (words, word)
    } else {
        let c = s[i as int];
        if c == '\\' && !escaped {
            set_split(s, i + 1, in_quote, true, word.push(c), words)
        } else if c == '"' && !escaped {
            set_split(s, i + 1, !in_quote, escaped, word.push(c), words)
        } else if (c == '=' || c == ',') && !escaped && !in_quote {
            set_split(s, i + 1, in_quote, escaped, seq![], words.push(word))
        } else {
            set_split(s, i + 1, in_quote, false, word.push(c), words)
        }
    }
}

/// The words of a set, keys and values in turn; an error where the last word
/// is empty or the words do not pair up.
pub open spec fn set_words(s: Seq<char>) -> Result<Seq<Seq<char>>, SetError> {
    let (words, last) = set_split(s, 0, false, false, seq![], seq![]);
    if last.len() == 0 || (words.len() + 1) % 2 != 0 {
        Err(SetError::UnevenValues)
    } else {
        Ok(words.push(last))
    }
}

fn set_words_exec(v: &Vec<char>) -> (r: Result<Vec<Vec<char>>, SetError>)
    ensures
        match set_words(v@) {
            Ok(w) => r is Ok && texts_of(r->Ok_0@) == w,
            Err(e) => r == Err::<Vec<Vec<char>>, SetError>(e),
        },
{
    let mut in_quote = false;
    let mut escaped = false;
    let mut word: Vec<char> = Vec::new();
    let mut words: Vec<Vec<char>> = Vec::new();
    let mut i: usize = 0;
    assert(texts_of(words@) == Seq::<Seq<char>>::empty());
    assert(word@ == Seq::<char>::empty());
    while i < v.len()
        invariant
            i <= v@.len(),
            set_split(v@, 0, false, false, seq![], seq![]) == set_split(
                v@,
                i as nat,
                in_quote,
                escaped,
                word@,
                texts_of(words@),
            ),
        decreases v@.len() - i,
    {
        let c = v[i];
        if c == '\\' && !escaped {
            escaped = true;
            word.push(c);
        } else if c == '"' && !escaped {
            in_quote = !in_quote;
            word.push(c);
        } else if (c == '=' || c == ',') && !escaped && !in_quote {
            let ghost before = texts_of(words@);
            let ghost w = word@;
            words.push(word);
            word = Vec::new();
            assert(texts_of(words@) == before.push(w));
            assert(word@ == Seq::<char>::empty());
        } else {
            escaped = false;
            word.push(c);
        }
        i = i + 1;
    }
    if word.len() == 0 || words.len() % 2 == 0 {
        return Err(SetError::UnevenValues);
    }
    let ghost before = texts_of(words@);
    let ghost w = word@;
    words.push(word);
    assert(texts_of(words@) == before.push(w));
    Ok(words)
}

/// The tags of the first `n` pairs of `words`, each key and value unescaped;
/// a later pair of the same key sets its value again.
pub open spec fn tags_from(words: Seq<Seq<char>>, n: nat) -> Seq<(Seq<char>, Seq<char>)>
    decreases n,
{
    if n == 0 {
        seq![]
    } else {
        put(
            tags_from(words, (n - 1) as nat),
            TagKey::unescape_view(words[2 * n - 2]),
            TagValue::unescape_view(words[2 * n - 1]),
        )
    }
}

/// The fields of the first `n` pairs of `words`: each key unescaped, each
/// value read from its token and then unescaped, the first value that cannot
/// be read being the error; a later pair of the same key sets its value again.
pub open spec fn fields_from(words: Seq<Seq<char>>, n: nat) -> Result<
    Seq<(Seq<char>, FieldValueView)>,
    SetError,
>
    decreases n,
{
    if n == 0 {
        Ok(seq![])
    } else {
        match fields_from(words, (n - 1) as nat) {
            Err(e) => Err(e),
            Ok(acc) => match FieldValue::convert_view(words[2 * n - 1]) {
                Err(e) => Err(e),
                Ok(v) => Ok(
                    put(acc, FieldKey::unescape_view(words[2 * n - 2]), FieldValue::unescape_view(v)),
                ),
            },
        }
    }
}

/// The tags that a tag set holds.
pub open spec fn tag_set_view(s: Seq<char>) -> Result<Seq<(Seq<char>, Seq<char>)>, SetError> {
    match set_words(s) {
        Err(e) => Err(e),
        Ok(w) => Ok(tags_from(w, (w.len() / 2) as nat)),
    }
}

/// The fields that a field set holds.
pub open spec fn field_set_view(s: Seq<char>) -> Result<Seq<(Seq<char>, FieldValueView)>, SetError> {
    match set_words(s) {
        Err(e) => Err(e),
        Ok(w) => fields_from(w, (w.len() / 2) as nat),
    }
}

fn tag_set_exec(v: &Vec<char>) -> (r: Result<Vec<(TagKey, TagValue)>, SetError>)
    ensures
        match tag_set_view(v@) {
            Ok(t) => r is Ok && tags_view(r->Ok_0@) == t,
            Err(e) => r == Err::<Vec<(TagKey, TagValue)>, SetError>(e),
        },
{
    let words = match set_words_exec(v) {
        Err(e) => {
            return Err(e);
        },
        Ok(w) => w,
    };
    let ghost w = texts_of(words@);
    assert(w.len() == words@.len());
    let mut tags: Vec<(TagKey, TagValue)> = Vec::new();
    let mut k: usize = 0;
    let len = words.len();
    let n = len / 2;
    assert(tags_view(tags@) == Seq::<(Seq<char>, Seq<char>)>::empty());
    while k < n
        invariant
            k <= n == words@.len() / 2,
            words@.len() <= usize::MAX,
            w == texts_of(words@),
            set_words(v@) == Ok::<Seq<Seq<char>>, SetError>(w),
            tags_view(tags@) == tags_from(w, k as nat),
        decreases n - k,
    {
        proof {
            lemma_pair_index(k as int, words@.len() as int);
        }
        let key = TagKey(string_of(&words[k + k])).unescape();
        let value = TagValue(string_of(&words[k + k + 1])).unescape();
        put_tag(&mut tags, key.0, value.0);
        k = k + 1;
    }
    Ok(tags)
}

fn field_set_exec(v: &Vec<char>) -> (r: Result<Vec<(FieldKey, FieldValue)>, SetError>)
    ensures
        match field_set_view(v@) {
            Ok(f) => r is Ok && fields_view(r->Ok_0@) == f,
            Err(e) => r == Err::<Vec<(FieldKey, FieldValue)>, SetError>(e),
        },
{
    let words = match set_words_exec(v) {
        Err(e) => {
            return Err(e);
        },
        Ok(w) => w,
    };
    let ghost w = texts_of(words@);
    assert(w.len() == words@.len());
    let mut fields: Vec<(FieldKey, FieldValue)> = Vec::new();
    let mut k: usize = 0;
    let len = words.len();
    let n = len / 2;
    assert(fields_view(fields@) == Seq::<(Seq<char>, FieldValueView)>::empty());
    while k < n
        invariant
            k <= n == words@.len() / 2,
            words@.len() <= usize::MAX,
            w == texts_of(words@),
            set_words(v@) == Ok::<Seq<Seq<char>>, SetError>(w),
            fields_from(w, k as nat) == Ok::<Seq<(Seq<char>, FieldValueView)>, SetError>(
                fields_view(fields@),
            ),
        decreases n - k,
    {
        proof {
            lemma_pair_index(k as int, words@.len() as int);
        }
        assert(k + k + 1 < words@.len());
        let i: usize = k + k;
        let key = FieldKey(string_of(&words[i])).unescape();
        let token = string_of(&words[i + 1]);
        assert(w[2 * k + 1] == token@);
        assert(w[2 * k] == words@[2 * k as int]@);
        match FieldValue::parse_from(token.as_str()) {
            Err(e) => {
                proof {
                    assert(((k + 1) as nat) * 2 - 1 == 2 * k + 1);
                    assert(fields_from(w, (k + 1) as nat) == Err::<Seq<(Seq<char>, FieldValueView)>, SetError>(e));
                    lemma_fields_from_err(w, (k + 1) as nat, n as nat);
                    assert(field_set_view(v@) == fields_from(w, n as nat));
                }
                return Err(e);
            },
            Ok(value) => {
                put_field(&mut fields, key.0, value.unescape());
            },
        }
        k = k + 1;
    }
    Ok(fields)
}

proof fn lemma_pair_index(k: int, len: int)
    requires
        0 <= k < len / 2,
    ensures
        k + k + 1 < len,
{
    assert(k + k + 1 < len) by (nonlinear_arith)
        requires
            0 <= k < len / 2,
    ;
}

/// Once a field cannot be read, the fields of more pairs cannot be either.
proof fn lemma_fields_from_err(words: Seq<Seq<char>>, k: nat, n: nat)
    requires
        k <= n,
        fields_from(words, k) is Err,
    ensures
        fields_from(words, n) == fields_from(words, k),
    decreases n - k,
{
    if k < n {
        lemma_fields_from_err(words, k, (n - 1) as nat);
    }
}

/// The data point that a line holds, or why it holds none.
///
/// The line is trimmed first. It is a comment where it starts with `#`, and
/// empty where nothing is left. Its first part, trimmed, is the measurement
/// name up to the first unescaped comma and, after that comma, the tag set; the
/// second part, trimmed, is the field set; the rest, trimmed, is the timestamp.
/// The errors come in this order: no measurement name, a malformed tag set, no
/// field set, a malformed field set, a timestamp that is no `i64`.
pub open spec fn parse_line_view(line: Seq<char>) -> Result<LineView, ParseError> {
    let l = trimmed(line);
    if l.len() > 0 && l[0] == '#' {
        Err(ParseError::CommentLine)
    } else if l.len() == 0 {
        Err(ParseError::EmptyLine)
    } else {
        let e1 = part_end(l, 0, false, false);
        let ident = trimmed(l.subrange(0, e1 as int));
        let m_end = name_end(ident, 0, false);
        let m = ident.subrange(0, m_end as int);
        let tag_set = if m_end < ident.len() {
            ident.subrange((m_end + 1) as int, ident.len() as int)
        } else {
            seq![]
        };
        let s2: nat = if e1 < l.len() { e1 + 1 } else { e1 };
        let e2 = part_end(l, s2, false, false);
        let field_set = trimmed(l.subrange(s2 as int, e2 as int));
        let s3: nat = if e2 < l.len() { e2 + 1 } else { e2 };
        let ts = trimmed(l.subrange(s3 as int, l.len() as int));
        if m.len() == 0 {
            Err(ParseError::MissingMeasurement)
        } else if tag_set.len() > 0 && tag_set_view(tag_set) is Err {
            Err(ParseError::InvalidSet(tag_set_view(tag_set)->Err_0))
        } else if field_set.len() == 0 {
            Err(ParseError::MissingFields)
        } else if field_set_view(field_set) is Err {
            Err(ParseError::InvalidSet(field_set_view(field_set)->Err_0))
        } else if ts.len() > 0 && i64_value(ts) is None {
            Err(ParseError::InvalidTimestamp)
        } else {
            Ok(
                LineView {
                    measurement: Measurement::unescape_view(m),
                    tags: if tag_set.len() > 0 {
                        Some(tag_set_view(tag_set)->Ok_0)
                    } else {
                        None
                    },
                    fields: field_set_view(field_set)->Ok_0,
                    timestamp: if ts.len() > 0 {
                        Some(i64_value(ts)->Some_0)
                    } else {
                        None
                    },
                },
            )
        }
    }
}

impl LineProtocol {
    /// Reads one line into a data point; see [`parse_line_view`].
    pub fn parse_line(line: &str) -> (r: Result<LineProtocol, LineProtocolError>)
        ensures
            match parse_line_view(line@) {
                Ok(p) => r is Ok && r->Ok_0@ == p,
                Err(e) => r == Err::<LineProtocol, LineProtocolError>(
                    LineProtocolError::ParserError(e),
                ),
            },
            r is Ok ==> well_formed(r->Ok_0@),
    {
        proof {
            lemma_parse_line_well_formed(line@);
        }
        let raw = chars_of(line);
        let l = trim_range(&raw, 0, raw.len());
        assert(raw@.subrange(0, raw@.len() as int) == raw@);
        if l.len() > 0 && l[0] == '#' {
            return Err(LineProtocolError::ParserError(ParseError::CommentLine));
        }
        if l.len() == 0 {
            return Err(LineProtocolError::ParserError(ParseError::EmptyLine));
        }
        let e1 = part_end_exec(&l, 0);
        let ident = trim_range(&l, 0, e1);
        let m_end = name_end_exec(&ident);
        let mut m: Vec<char> = Vec::new();
        push_range(&mut m, &ident, 0, m_end);
        let mut tag_set: Vec<char> = Vec::new();
        if m_end < ident.len() {
            push_range(&mut tag_set, &ident, m_end + 1, ident.len());
        }
        let s2 = if e1 < l.len() {
            e1 + 1
        } else {
            e1
        };
        let e2 = part_end_exec(&l, s2);
        let field_set = trim_range(&l, s2, e2);
        let s3 = if e2 < l.len() {
            e2 + 1
        } else {
            e2
        };
        let ts = trim_range(&l, s3, l.len());
        if m.len() == 0 {
            return Err(LineProtocolError::ParserError(ParseError::MissingMeasurement));
        }
        let tags = if tag_set.len() > 0 {
            match tag_set_exec(&tag_set) {
                Err(e) => {
                    return Err(LineProtocolError::ParserError(ParseError::InvalidSet(e)));
                },
                Ok(t) => Some(t),
            }
        } else {
            None
        };
        if field_set.len() == 0 {
            return Err(LineProtocolError::ParserError(ParseError::MissingFields));
        }
        let fields = match field_set_exec(&field_set) {
            Err(e) => {
                return Err(LineProtocolError::ParserError(ParseError::InvalidSet(e)));
            },
            Ok(f) => f,
        };
        let timestamp = if ts.len() > 0 {
            match parse_i64(&ts) {
                None => {
                    return Err(LineProtocolError::ParserError(ParseError::InvalidTimestamp));
                },
                Some(t) => Some(t),
            }
        } else {
            None
        };
        let measurement = Measurement(string_of(&m)).unescape();
        Ok(LineProtocol { measurement, tags, fields, timestamp })
    }
}

/// Whether a batch passes over a line: it is blank, or a comment.
pub open spec fn skipped(line: Seq<char>) -> bool {
    let l = trimmed(line);
    l.len() == 0 || l[0] == '#'
}

/// `fields` with each pair of `more` set in turn, later ones winning.
pub open spec fn put_all<V>(fields: Seq<(Seq<char>, V)>, more: Seq<(Seq<char>, V)>) -> Seq<
    (Seq<char>, V),
>
    decreases more.len(),
{
    if more.len() == 0 {
        fields
    } else {
        put_all(put(fields, more[0].0, more[0].1), more.drop_first())
    }
}

/// The index of the first point of `points` that is the same point as `p`.
pub open spec fn first_same(points: Seq<LineView>, p: LineView) -> Option<int>
    decreases points.len(),
{
    if points.len() == 0 {
        None
    } else if same_point(points[0], p) {
        Some(0)
    } else {
        match first_same(points.drop_first(), p) {
            Some(i) => Some(i + 1),
            None => None,
        }
    }
}

/// `points` with `p` taken in: its fields are set on the first point that is
/// the same point, or it is added at the end where there is none.
pub open spec fn merged(points: Seq<LineView>, p: LineView) -> Seq<LineView> {
    match first_same(points, p) {
        Some(i) => points.update(
            i,
            LineView {
                measurement: points[i].measurement,
                tags: points[i].tags,
                fields: put_all(points[i].fields, p.fields),
                timestamp: points[i].timestamp,
            },
        ),
        None => points.push(p),
    }
}

/// The points of a batch of lines, read in order, or the first error: blank
/// lines and comments are passed over, and a point read again is merged into
/// the first one.
pub open spec fn parse_vec_view(lines: Seq<Seq<char>>) -> Result<Seq<LineView>, ParseError>
    decreases lines.len(),
{
    if lines.len() == 0 {
        Ok(seq![])
    } else {
        match parse_vec_view(lines.drop_last()) {
            Err(e) => Err(e),
            Ok(acc) => if skipped(lines.last()) {
                Ok(acc)
            } else {
                match parse_line_view(lines.last()) {
                    Err(e) => Err(e),
                    Ok(p) => Ok(merged(acc, p)),
                }
            },
        }
    }
}

/// The views of some points.
pub open spec fn points_view(points: Seq<LineProtocol>) -> Seq<LineView> {
    points.map_values(|p: LineProtocol| p@)
}

/// The texts of some lines.
pub open spec fn lines_view(lines: Seq<&str>) -> Seq<Seq<char>> {
    lines.map_values(|l: &str| l@)
}

proof fn lemma_first_same(points: Seq<LineView>, p: LineView, i: int)
    requires
        0 <= i <= points.len(),
        forall|j: int| 0 <= j < i ==> !same_point(#[trigger] points[j], p),
    ensures
        i < points.len() && same_point(points[i], p) ==> first_same(points, p) == Some(i),
        i == points.len() ==> first_same(points, p) is None,
    decreases points.len(),
{
    if points.len() > 0 && i > 0 {
        assert forall|j: int| 0 <= j < i - 1 implies !same_point(#[trigger] points.drop_first()[j], p) by {
            assert(points.drop_first()[j] == points[j + 1]);
        }
        lemma_first_same(points.drop_first(), p, i - 1);
    }
}

fn find_same(points: &Vec<LineProtocol>, p: &LineProtocol) -> (r: Option<usize>)
    ensures
        match r {
            Some(j) => first_same(points_view(points@), p@) == Some(j as int) && j < points@.len(),
            None => first_same(points_view(points@), p@) is None,
        },
{
    let ghost s = points_view(points@);
    let mut j: usize = 0;
    while j < points.len()
        invariant
            j <= points@.len(),
            s == points_view(points@),
            forall|i: int| 0 <= i < j ==> !same_point(#[trigger] s[i], p@),
        decreases points@.len() - j,
    {
        if points[j].same(p) {
            proof {
                lemma_first_same(s, p@, j as int);
            }
            return Some(j);
        }
        j = j + 1;
    }
    proof {
        lemma_first_same(s, p@, j as int);
    }
    None
}

/// Sets each field of `more` on `fields`, in order.
fn add_fields(fields: &mut Vec<(FieldKey, FieldValue)>, more: &Vec<(FieldKey, FieldValue)>)
    ensures
        fields_view(final(fields)@) == put_all(fields_view(old(fields)@), fields_view(more@)),
{
    let ghost m = fields_view(more@);
    let mut j: usize = 0;
    assert(m.skip(0) == m);
    while j < more.len()
        invariant
            j <= more@.len(),
            m == fields_view(more@),
            put_all(fields_view(old(fields)@), m) == put_all(fields_view(fields@), m.skip(j as int)),
        decreases more@.len() - j,
    {
        assert(m.skip(j as int).drop_first() == m.skip(j + 1));
        assert(m.skip(j as int)[0] == m[j as int]);
        assert(m[j as int] == (more@[j as int].0@, more@[j as int].1@));
        put_field(fields, more[j].0.0.clone(), more[j].1.duplicate());
        j = j + 1;
    }
    assert(m.skip(j as int).len() == 0);
}

impl LineProtocol {
    /// Reads a batch of lines; see [`parse_vec_view`].
    pub fn parse_vec(lines: Vec<&str>) -> (r: Result<Vec<LineProtocol>, LineProtocolError>)
        ensures
            match parse_vec_view(lines_view(lines@)) {
                Ok(ps) => r is Ok && points_view(r->Ok_0@) == ps,
                Err(e) => r == Err::<Vec<LineProtocol>, LineProtocolError>(
                    LineProtocolError::ParserError(e),
                ),
            },
            r is Ok ==> forall|i: int|
                0 <= i < r->Ok_0@.len() ==> well_formed(#[trigger] r->Ok_0@[i]@),
    {
        let ghost ls = lines_view(lines@);
        let mut points: Vec<LineProtocol> = Vec::new();
        let mut i: usize = 0;
        assert(ls.take(0) == Seq::<Seq<char>>::empty());
        assert(points_view(points@) == Seq::<LineView>::empty());
        while i < lines.len()
            invariant
                i <= lines@.len(),
                ls == lines_view(lines@),
                parse_vec_view(ls.take(i as int)) == Ok::<Seq<LineView>, ParseError>(
                    points_view(points@),
                ),
            decreases lines@.len() - i,
        {
            let line = lines[i];
            proof {
                let t = ls.take(i + 1);
                assert(t.drop_last() == ls.take(i as int));
                assert(t.last() == line@);
            }
            let raw = chars_of(line);
            let l = trim_range(&raw, 0, raw.len());
            assert(raw@.subrange(0, raw@.len() as int) == raw@);
            if l.len() == 0 || l[0] == '#' {
                i = i + 1;
                continue;
            }
            let p = match LineProtocol::parse_line(line) {
                Err(e) => {
                    proof {
                        lemma_batch_err(ls, (i + 1) as nat, ls.len());
                    }
                    assert(ls.take(ls.len() as int) == ls);
                    return Err(e);
                },
                Ok(p) => p,
            };
            let ghost before = points_view(points@);
            match find_same(&points, &p) {
                Some(j) => {
                    let mut q = points.remove(j);
                    add_fields(&mut q.fields, &p.fields);
                    points.insert(j, q);
                    assert(points_view(points@) == merged(before, p@));
                },
                None => {
                    points.push(p);
                    assert(points_view(points@) == merged(before, p@));
                },
            }
            i = i + 1;
        }
        assert(ls.take(i as int) == ls);
        proof {
            lemma_parse_vec_well_formed(ls);
            assert forall|j: int| 0 <= j < points@.len() implies well_formed(
                #[trigger] points@[j]@,
            ) by {
                assert(points_view(points@)[j] == points@[j]@);
                assert(parse_vec_view(ls)->Ok_0 == points_view(points@));
                assert(well_formed(parse_vec_view(ls)->Ok_0[j]));
            }
        }
        Ok(points)
    }
}

/// Once a batch has failed, more lines do not mend it.
proof fn lemma_batch_err(lines: Seq<Seq<char>>, k: nat, n: nat)
    requires
        k <= n <= lines.len(),
        parse_vec_view(lines.take(k as int)) is Err,
    ensures
        parse_vec_view(lines.take(n as int)) == parse_vec_view(lines.take(k as int)),
    decreases n - k,
{
    if k < n {
        lemma_batch_err(lines, k, (n - 1) as nat);
        assert(lines.take(n as int).drop_last() == lines.take(n - 1));
    }
}

/// `line` without the carriage return it ends with, if any.
pub open spec fn without_cr(line: Seq<char>) -> Seq<char> {
    if line.len() > 0 && line.last() == '\r' {
        line.drop_last()
    } else {
        line
    }
}

/// The lines of `s` from index `a` on, the current one having begun at
/// `start`: split at each `\n`, and a `\r` just before it taken away too, as
/// `str::lines` does. A last line that would be empty is not counted.
pub open spec fn lines_from(s: Seq<char>, a: nat, start: nat) -> Seq<Seq<char>>
    decreases s.len() - a,
{
    if a >= s.len() {
        if start < s.len() {
            seq![s.subrange(start as int, s.len() as int)]
        } else {
            seq![]
        }
    } else if s[a as int] == '\n' {
        seq![without_cr(s.subrange(start as int, a as int))] + lines_from(s, a + 1, a + 1)
    } else {
        lines_from(s, a + 1, start)
    }
}

/// The lines of `s`.
pub open spec fn split_lines(s: Seq<char>) -> Seq<Seq<char>> {
    lines_from(s, 0, 0)
}

/// Splits `text` into its lines.
fn lines_of(text: &str) -> (r: Vec<&str>)
    ensures
        lines_view(r@) == split_lines(text@),
{
    let v = chars_of(text);
    let n = v.len();
    let mut out: Vec<&str> = Vec::new();
    let mut a: usize = 0;
    let mut start: usize = 0;
    assert(lines_view(out@) == Seq::<Seq<char>>::empty());
    while a < n
        invariant
            start <= a <= n == v@.len() == text@.len(),
            v@ == text@,
            split_lines(text@) == lines_view(out@) + lines_from(text@, a as nat, start as nat),
        decreases n - a,
    {
        if v[a] == '\n' {
            let end = if a > start && v[a - 1] == '\r' {
                a - 1
            } else {
                a
            };
            let line = text.substring_char(start, end);
            let ghost before = lines_view(out@);
            out.push(line);
            proof {
                assert(lines_view(out@) == before.push(line@));
                if end < a {
                    assert(text@.subrange(start as int, a as int).drop_last() =~= text@.subrange(
                        start as int,
                        end as int,
                    ));
                }
                assert(line@ == without_cr(text@.subrange(start as int, a as int)));
                assert(before.push(line@) + lines_from(text@, (a + 1) as nat, (a + 1) as nat)
                    == before + (seq![line@] + lines_from(text@, (a + 1) as nat, (a + 1) as nat)));
            }
            a = a + 1;
            start = a;
        } else {
            a = a + 1;
        }
    }
    if start < n {
        let line = text.substring_char(start, n);
        let ghost before = lines_view(out@);
        out.push(line);
        assert(lines_view(out@) == before.push(line@));
    } else {
        assert(lines_view(out@) + Seq::<Seq<char>>::empty() == lines_view(out@));
    }
    out
}

impl LineProtocol {
    /// Reads lines separated by newlines; see [`split_lines`] and
    /// [`parse_vec_view`].
    pub fn parse_lines(lines: &str) -> (r: Result<Vec<LineProtocol>, LineProtocolError>)
        ensures
            match parse_vec_view(split_lines(lines@)) {
                Ok(ps) => r is Ok && points_view(r->Ok_0@) == ps,
                Err(e) => r == Err::<Vec<LineProtocol>, LineProtocolError>(
                    LineProtocolError::ParserError(e),
                ),
            },
            r is Ok ==> forall|i: int|
                0 <= i < r->Ok_0@.len() ==> well_formed(#[trigger] r->Ok_0@[i]@),
    {
        LineProtocol::parse_vec(lines_of(lines))
    }
}

proof fn lemma_tags_from_unique(words: Seq<Seq<char>>, n: nat)
    ensures
        unique_keys(tags_from(words, n)),
    decreases n,
{
    if n > 0 {
        lemma_tags_from_unique(words, (n - 1) as nat);
        lemma_put_unique(
            tags_from(words, (n - 1) as nat),
            TagKey::unescape_view(words[2 * n - 2]),
            TagValue::unescape_view(words[2 * n - 1]),
        );
    }
}

proof fn lemma_fields_from_unique(words: Seq<Seq<char>>, n: nat)
    ensures
        fields_from(words, n) is Ok ==> unique_keys(fields_from(words, n)->Ok_0),
    decreases n,
{
    if n > 0 {
        lemma_fields_from_unique(words, (n - 1) as nat);
        if fields_from(words, (n - 1) as nat) is Ok && FieldValue::convert_view(words[2 * n - 1]) is Ok {
            lemma_put_unique(
                fields_from(words, (n - 1) as nat)->Ok_0,
                FieldKey::unescape_view(words[2 * n - 2]),
                FieldValue::unescape_view(FieldValue::convert_view(words[2 * n - 1])->Ok_0),
            );
        }
    }
}

/// A point read from a line holds each tag key and each field key once.
pub proof fn lemma_parse_line_well_formed(line: Seq<char>)
    ensures
        parse_line_view(line) is Ok ==> well_formed(parse_line_view(line)->Ok_0),
{
    let l = trimmed(line);
    if parse_line_view(line) is Ok {
        let e1 = part_end(l, 0, false, false);
        let ident = trimmed(l.subrange(0, e1 as int));
        let m_end = name_end(ident, 0, false);
        let tag_set = if m_end < ident.len() {
            ident.subrange((m_end + 1) as int, ident.len() as int)
        } else {
            seq![]
        };
        let s2: nat = if e1 < l.len() { e1 + 1 } else { e1 };
        let e2 = part_end(l, s2, false, false);
        let field_set = trimmed(l.subrange(s2 as int, e2 as int));
        if tag_set.len() > 0 {
            let w = set_words(tag_set)->Ok_0;
            lemma_tags_from_unique(w, (w.len() / 2) as nat);
        }
        let w = set_words(field_set)->Ok_0;
        lemma_fields_from_unique(w, (w.len() / 2) as nat);
    }
}

proof fn lemma_put_all_unique<V>(fields: Seq<(Seq<char>, V)>, more: Seq<(Seq<char>, V)>)
    requires
        unique_keys(fields),
    ensures
        unique_keys(put_all(fields, more)),
    decreases more.len(),
{
    if more.len() > 0 {
        lemma_put_unique(fields, more[0].0, more[0].1);
        lemma_put_all_unique(put(fields, more[0].0, more[0].1), more.drop_first());
    }
}

/// Every point read from a batch holds each tag key and each field key once.
pub proof fn lemma_parse_vec_well_formed(lines: Seq<Seq<char>>)
    ensures
        parse_vec_view(lines) is Ok ==> forall|i: int|
            0 <= i < parse_vec_view(lines)->Ok_0.len() ==> well_formed(
                #[trigger] parse_vec_view(lines)->Ok_0[i],
            ),
    decreases lines.len(),
{
    if lines.len() > 0 {
        lemma_parse_vec_well_formed(lines.drop_last());
        lemma_parse_line_well_formed(lines.last());
        if parse_vec_view(lines.drop_last()) is Ok && !skipped(lines.last()) && parse_line_view(
            lines.last(),
        ) is Ok {
            let acc = parse_vec_view(lines.drop_last())->Ok_0;
            let p = parse_line_view(lines.last())->Ok_0;
            match first_same(acc, p) {
                Some(j) => {
                    lemma_first_same_in(acc, p);
                    lemma_put_all_unique(acc[j].fields, p.fields);
                },
                None => {},
            }
        }
    }
}

proof fn lemma_first_same_in(points: Seq<LineView>, p: LineView)
    ensures
        first_same(points, p) is Some ==> 0 <= first_same(points, p)->Some_0 < points.len(),
    decreases points.len(),
{
    if points.len() > 0 {
        lemma_first_same_in(points.drop_first(), p);
    }
}

} // verus!
