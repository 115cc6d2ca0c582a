//! The elements that make up a line:
//!
//! ```text
//! measurement         tag set             field set              timestamp
//! ----------- ------------------- ------------------------- -------------------
//! measurement,tag1=val1,tag2=val2 field1="val1",field2=true 1729270461612452700
//! ```
//!
//! Each element can be escaped for writing and unescaped after reading
//! ([`Format`]), and read from the text of a token ([`Convert`]).

use vstd::prelude::*;

use crate::error::SetError;
use crate::escape::{
    chars2, chars3, escape_chars, escaped, key_class, lemma_key_round_trip,
    lemma_measurement_round_trip, lemma_string_round_trip, measurement_class, string_class,
    unescape_chars, unescaped,
};
use crate::float::{float_text, push_range, Float};
use crate::number::{i64_value, int_text, nat_text, parse_i64, parse_u64, push_i64, push_u64, u64_value};
use crate::text::{chars_of, push_all, string_of};
use crate::traits::{Convert, Format};

verus! {

/// The name of what a data point measures. Escaped characters: space and comma.
#[derive(Debug, Clone, PartialEq, Eq, Hash)]
pub struct Measurement(pub String);

impl View for Measurement {
    type V = Seq<char>;

    open spec fn view(&self) -> Seq<char> {
        self.0@
    }
}

impl Measurement {
    /// The measurement name that reads `value`.
    pub fn from(value: &str) -> (r: Measurement)
        ensures
            r@ == value@,
    {
        Measurement(value.to_owned())
    }

    /// The text of the measurement name.
    pub fn to_string(&self) -> (r: String)
        ensures
            r@ == self@,
    {
        self.0.clone()
    }
}

impl Format for Measurement {
    open spec fn escape_view(v: Seq<char>) -> Seq<char> {
        escaped(v, measurement_class())
    }

    open spec fn unescape_view(v: Seq<char>) -> Seq<char> {
        unescaped(unescaped(v, ','), ' ')
    }

    proof fn lemma_unescape_escape(v: Seq<char>) {
        lemma_measurement_round_trip(v);
    }

    fn escape(&self) -> (r: Measurement) {
        let r = string_of(&escape_chars(&chars_of(self.0.as_str()), &chars2(' ', ',')));
        Measurement(r)
    }

    fn unescape(&self) -> (r: Measurement) {
        let s = chars_of(self.0.as_str());
        let s = unescape_chars(&s, ',');
        let s = unescape_chars(&s, ' ');
        Measurement(string_of(&s))
    }
}

impl Convert for Measurement {
    open spec fn convert_view(s: Seq<char>) -> Result<Seq<char>, SetError> {
        Ok(s)
    }

    fn parse_from(from: &str) -> (r: Result<Measurement, SetError>) {
        Ok(Measurement::from(from))
    }
}

/// The key of a tag. Escaped characters: space, comma and equals sign.
#[derive(Debug, Clone, PartialEq, Eq, Hash)]
pub struct TagKey(pub String);

impl View for TagKey {
    type V = Seq<char>;

    open spec fn view(&self) -> Seq<char> {
        self.0@
    }
}

impl TagKey {
    /// The tag key that reads `value`.
    pub fn from(value: &str) -> (r: TagKey)
        ensures
            r@ == value@,
    {
        TagKey(value.to_owned())
    }

    /// The text of the tag key.
    pub fn to_string(&self) -> (r: String)
        ensures
            r@ == self@,
    {
        self.0.clone()
    }
}

impl Format for TagKey {
    open spec fn escape_view(v: Seq<char>) -> Seq<char> {
        escaped(v, key_class())
    }

    open spec fn unescape_view(v: Seq<char>) -> Seq<char> {
        unescaped(unescaped(unescaped(v, '='), ','), ' ')
    }

    proof fn lemma_unescape_escape(v: Seq<char>) {
        lemma_key_round_trip(v);
    }

    fn escape(&self) -> (r: TagKey) {
        let r = string_of(&escape_chars(&chars_of(self.0.as_str()), &chars3(' ', ',', '=')));
        TagKey(r)
    }

    fn unescape(&self) -> (r: TagKey) {
        let s = chars_of(self.0.as_str());
        let s = unescape_chars(&s, '=');
        let s = unescape_chars(&s, ',');
        let s = unescape_chars(&s, ' ');
        TagKey(string_of(&s))
    }
}

impl Convert for TagKey {
    open spec fn convert_view(s: Seq<char>) -> Result<Seq<char>, SetError> {
        Ok(s)
    }

    fn parse_from(from: &str) -> (r: Result<TagKey, SetError>) {
        Ok(TagKey::from(from))
    }
}

/// The value of a tag. Escaped characters: space, comma and equals sign.
#[derive(Debug, Clone, PartialEq, Eq, Hash)]
pub struct TagValue(pub String);

impl View for TagValue {
    type V = Seq<char>;

    open spec fn view(&self) -> Seq<char> {
        self.0@
    }
}

impl TagValue {
    /// The tag value that reads `value`.
    pub fn from(value: &str) -> (r: TagValue)
        ensures
            r@ == value@,
    {
        TagValue(value.to_owned())
    }

    /// The text of the tag value.
    pub fn to_string(&self) -> (r: String)
        ensures
            r@ == self@,
    {
        self.0.clone()
    }
}

impl Format for TagValue {
    open spec fn escape_view(v: Seq<char>) -> Seq<char> {
        escaped(v, key_class())
    }

    open spec fn unescape_view(v: Seq<char>) -> Seq<char> {
        unescaped(unescaped(unescaped(v, '='), ','), ' ')
    }

    proof fn lemma_unescape_escape(v: Seq<char>) {
        lemma_key_round_trip(v);
    }

    fn escape(&self) -> (r: TagValue) {
        let r = string_of(&escape_chars(&chars_of(self.0.as_str()), &chars3(' ', ',', '=')));
        TagValue(r)
    }

    fn unescape(&self) -> (r: TagValue) {
        let s = chars_of(self.0.as_str());
        let s = unescape_chars(&s, '=');
        let s = unescape_chars(&s, ',');
        let s = unescape_chars(&s, ' ');
        TagValue(string_of(&s))
    }
}

impl Convert for TagValue {
    open spec fn convert_view(s: Seq<char>) -> Result<Seq<char>, SetError> {
        Ok(s)
    }

    fn parse_from(from: &str) -> (r: Result<TagValue, SetError>) {
        Ok(TagValue::from(from))
    }
}

/// The key of a field. Escaped characters: space, comma and equals sign.
#[derive(Debug, Clone, PartialEq, Eq, Hash)]
pub struct FieldKey(pub String);

impl View for FieldKey {
    type V = Seq<char>;

    open spec fn view(&self) -> Seq<char> {
        self.0@
    }
}

impl FieldKey {
    /// The field key that reads `value`.
    pub fn from(value: &str) -> (r: FieldKey)
        ensures
            r@ == value@,
    {
        FieldKey(value.to_owned())
    }

    /// The text of the field key.
    pub fn to_string(&self) -> (r: String)
        ensures
            r@ == self@,
    {
        self.0.clone()
    }
}

impl Format for FieldKey {
    open spec fn escape_view(v: Seq<char>) -> Seq<char> {
        escaped(v, key_class())
    }

    open spec fn unescape_view(v: Seq<char>) -> Seq<char> {
        unescaped(unescaped(unescaped(v, '='), ','), ' ')
    }

    proof fn lemma_unescape_escape(v: Seq<char>) {
        lemma_key_round_trip(v);
    }

    fn escape(&self) -> (r: FieldKey) {
        let r = string_of(&escape_chars(&chars_of(self.0.as_str()), &chars3(' ', ',', '=')));
        FieldKey(r)
    }

    fn unescape(&self) -> (r: FieldKey) {
        let s = chars_of(self.0.as_str());
        let s = unescape_chars(&s, '=');
        let s = unescape_chars(&s, ',');
        let s = unescape_chars(&s, ' ');
        FieldKey(string_of(&s))
    }
}

impl Convert for FieldKey {
    open spec fn convert_view(s: Seq<char>) -> Result<Seq<char>, SetError> {
        Ok(s)
    }

    fn parse_from(from: &str) -> (r: Result<FieldKey, SetError>) {
        Ok(FieldKey::from(from))
    }
}

/// The value of a field.
///
/// Two values are equal when they render as the same text, so that
/// `Integer(10)` and `UInteger(10)` (both `10i`) are equal.
#[derive(Debug, Clone)]
pub enum FieldValue {
    /// A floating-point number.
    Float(Float),
    /// A signed integer.
    Integer(i64),
    /// An unsigned integer.
    UInteger(u64),
    /// A string.
    String(String),
    /// A boolean.
    Boolean(bool),
}

/// What a [`FieldValue`] holds.
pub enum FieldValueView {
    Float(Seq<char>),
    Integer(i64),
    UInteger(u64),
    String(Seq<char>),
    Boolean(bool),
}

impl View for FieldValue {
    type V = FieldValueView;

    open spec fn view(&self) -> FieldValueView {
        match self {
            FieldValue::Float(f) => FieldValueView::Float(f@),
            FieldValue::Integer(i) => FieldValueView::Integer(*i),
            FieldValue::UInteger(u) => FieldValueView::UInteger(*u),
            FieldValue::String(s) => FieldValueView::String(s@),
            FieldValue::Boolean(b) => FieldValueView::Boolean(*b),
        }
    }
}

/// The text of a field value: a float as its plain decimal, an integer of
/// either kind with `i` after it, a string as it is, a boolean as `true` or
/// `false`.
pub open spec fn render(v: FieldValueView) -> Seq<char> {
    match v {
        FieldValueView::Float(t) => t,
        FieldValueView::Integer(i) => int_text(i as int) + seq!['i'],
        FieldValueView::UInteger(u) => nat_text(u as nat) + seq!['i'],
        FieldValueView::String(s) => s,
        FieldValueView::Boolean(b) => if b {
            "true"@
        } else {
            "false"@
        },
    }
}

/// The words read as `true`.
pub open spec fn is_true_word(s: Seq<char>) -> bool {
    s == "t"@ || s == "T"@ || s == "true"@ || s == "True"@ || s == "TRUE"@
}

/// The words read as `false`.
pub open spec fn is_false_word(s: Seq<char>) -> bool {
    s == "f"@ || s == "F"@ || s == "false"@ || s == "False"@ || s == "FALSE"@
}

/// Whether every character of `s` is ASCII.
pub open spec fn ascii_text(s: Seq<char>) -> bool {
    forall|i: int| 0 <= i < s.len() ==> (#[trigger] s[i] as u32) < 128
}

/// Whether `s` is an optional `-` and then one or more ASCII digits.
pub open spec fn ascii_signed_digits(s: Seq<char>) -> bool {
    let k: int = if s.len() > 0 && s[0] == '-' { 1 } else { 0 };
    &&& s.len() > k
    &&& forall|i: int| k <= i < s.len() ==> '0' <= #[trigger] s[i] && s[i] <= '9'
}

/// Whether `s` matches the regular expression `^-?\d+$`, where `\d` is any
/// Unicode decimal digit; of text that is not all ASCII.
pub uninterp spec fn signed_digits_pattern(s: Seq<char>) -> bool;

/// Whether `s` matches `^-?\d+$`: among ASCII characters the Unicode decimal
/// digits are exactly `0` to `9`.
pub open spec fn signed_digits(s: Seq<char>) -> bool {
    if ascii_text(s) {
        ascii_signed_digits(s)
    } else {
        signed_digits_pattern(s)
    }
}

/// Whether `s` matches the regular expression `^-?\d+i$`: it ends with `i`,
/// and what comes before matches `^-?\d+$`.
pub open spec fn integer_pattern(s: Seq<char>) -> bool {
    s.len() > 0 && s.last() == 'i' && signed_digits(s.drop_last())
}

/// Relies on `regex::Regex::is_match`, with the pattern `^-?\d+i$`, to tell
/// whether a token has the shape of an integer: a match ends with `i`, and
/// what comes before it is an optional `-` and Unicode decimal digits (`\d`
/// is `\p{Nd}`), which among ASCII characters are `0` to `9`.
#[verifier::external_body]
fn matches_integer_pattern(s: &str) -> (r: bool)
    ensures
        r == (s@.len() > 0 && s@.last() == 'i' && if ascii_text(s@.drop_last()) {
            ascii_signed_digits(s@.drop_last())
        } else {
            signed_digits_pattern(s@.drop_last())
        }),
        r == integer_pattern(s@),
{
    regex::Regex::new(r"^-?\d+i$").unwrap().is_match(s)
}

/// What a token reads as, given whether it has the shape of an integer
/// (an optional `-`, digits, and `i`). In this order: an integer of that shape
/// is signed when it starts with `-` and unsigned otherwise, and is an error
/// where it does not fit; then a float; then a word of [`is_true_word`] or
/// [`is_false_word`]; anything else is a string.
pub open spec fn field_value_of(s: Seq<char>, integer_shaped: bool) -> Result<
    FieldValueView,
    SetError,
> {
    if integer_shaped {
        let number = if s.len() > 0 { s.drop_last() } else { s };
        if number.len() > 0 && number[0] == '-' {
            match i64_value(number) {
                Some(i) => Ok(FieldValueView::Integer(i)),
                None => Err(SetError::InvalidInteger),
            }
        } else {
            match u64_value(number) {
                Some(u) => Ok(FieldValueView::UInteger(u)),
                None => Err(SetError::InvalidInteger),
            }
        }
    } else {
        match float_text(s) {
            Some(t) => Ok(FieldValueView::Float(t)),
            None => if is_true_word(s) {
                Ok(FieldValueView::Boolean(true))
            } else if is_false_word(s) {
                Ok(FieldValueView::Boolean(false))
            } else {
                Ok(FieldValueView::String(s))
            },
        }
    }
}

/// `s` without one pair of double quotes around it, where it has them.
pub open spec fn unquoted(s: Seq<char>) -> Seq<char> {
    if s.len() >= 2 && s[0] == '"' && s.last() == '"' {
        s.subrange(1, s.len() - 1)
    } else {
        s
    }
}

/// Whether the characters `v` are those of the literal `w`.
fn equals_word(v: &Vec<char>, w: &str) -> (r: bool)
    ensures
        r == (v@ == w@),
{
    let wv = chars_of(w);
    if v.len() != wv.len() {
        return false;
    }
    let mut i: usize = 0;
    while i < v.len()
        invariant
            i <= v@.len() == wv@.len(),
            wv@ == w@,
            forall|j: int| 0 <= j < i ==> v@[j] == wv@[j],
        decreases v@.len() - i,
    {
        if v[i] != wv[i] {
            assert(v@[i as int] != wv@[i as int]);
            return false;
        }
        i = i + 1;
    }
    assert(v@ == wv@);
    true
}

impl FieldValue {
    /// A copy of this value.
    pub fn duplicate(&self) -> (r: FieldValue)
        ensures
            r@ == self@,
    {
        match self {
            FieldValue::Float(f) => FieldValue::Float(f.duplicate()),
            FieldValue::Integer(i) => FieldValue::Integer(*i),
            FieldValue::UInteger(u) => FieldValue::UInteger(*u),
            FieldValue::String(s) => FieldValue::String(s.clone()),
            FieldValue::Boolean(b) => FieldValue::Boolean(*b),
        }
    }

    /// The text of the value; see [`render`].
    pub fn to_string(&self) -> (r: String)
        ensures
            r@ == render(self@),
    {
        match self {
            FieldValue::Float(f) => f.to_string(),
            FieldValue::Integer(i) => {
                let mut v: Vec<char> = Vec::new();
                push_i64(&mut v, *i);
                v.push('i');
                string_of(&v)
            },
            FieldValue::UInteger(u) => {
                let mut v: Vec<char> = Vec::new();
                push_u64(&mut v, *u);
                v.push('i');
                string_of(&v)
            },
            FieldValue::String(s) => s.clone(),
            FieldValue::Boolean(b) => if *b {
                "true".to_owned()
            } else {
                "false".to_owned()
            },
        }
    }

    /// Reads a token, given whether it has the shape of an integer; see
    /// [`field_value_of`].
    pub fn from_token(s: &str, integer_shaped: bool) -> (r: Result<FieldValue, SetError>)
        ensures
            match field_value_of(s@, integer_shaped) {
                Ok(v) => r is Ok && r->Ok_0@ == v,
                Err(e) => r is Err && r->Err_0 == e,
            },
    {
        let v = chars_of(s);
        if integer_shaped {
            let mut number = v;
            if number.len() > 0 {
                number.pop();
            }
            if number.len() > 0 && number[0] == '-' {
                match parse_i64(&number) {
                    Some(i) => Ok(FieldValue::Integer(i)),
                    None => Err(SetError::InvalidInteger),
                }
            } else {
                match parse_u64(&number) {
                    Some(u) => Ok(FieldValue::UInteger(u)),
                    None => Err(SetError::InvalidInteger),
                }
            }
        } else {
            match Float::parse(s) {
                Some(f) => Ok(FieldValue::Float(f)),
                None => {
                    if equals_word(&v, "t") || equals_word(&v, "T") || equals_word(&v, "true")
                        || equals_word(&v, "True") || equals_word(&v, "TRUE") {
                        Ok(FieldValue::Boolean(true))
                    } else if equals_word(&v, "f") || equals_word(&v, "F") || equals_word(
                        &v,
                        "false",
                    ) || equals_word(&v, "False") || equals_word(&v, "FALSE") {
                        Ok(FieldValue::Boolean(false))
                    } else {
                        Ok(FieldValue::String(s.to_owned()))
                    }
                },
            }
        }
    }
}

impl PartialEq for FieldValue {
    fn eq(&self, other: &FieldValue) -> (r: bool) {
        let a = self.to_string();
        let b = other.to_string();
        a == b
    }
}

impl vstd::std_specs::cmp::PartialEqSpecImpl for FieldValue {
    open spec fn obeys_eq_spec() -> bool {
        true
    }

    open spec fn eq_spec(&self, other: &FieldValue) -> bool {
        render(self@) == render(other@)
    }
}

impl Format for FieldValue {
    open spec fn escape_view(v: FieldValueView) -> FieldValueView {
        match v {
            FieldValueView::String(s) => FieldValueView::String(
                seq!['"'] + escaped(s, string_class()) + seq!['"'],
            ),
            _ => v,
        }
    }

    open spec fn unescape_view(v: FieldValueView) -> FieldValueView {
        match v {
            FieldValueView::String(s) => FieldValueView::String(
                unescaped(unescaped(unquoted(s), '"'), '\\'),
            ),
            _ => v,
        }
    }

    proof fn lemma_unescape_escape(v: FieldValueView) {
        if let FieldValueView::String(s) = v {
            let e = escaped(s, string_class());
            let q = seq!['"'] + e + seq!['"'];
            assert(q.subrange(1, q.len() - 1) == e);
            lemma_string_round_trip(s);
        }
    }

    fn escape(&self) -> (r: FieldValue) {
        match self {
            FieldValue::String(s) => {
                let e = escape_chars(&chars_of(s.as_str()), &chars2('\\', '"'));
                let mut q: Vec<char> = Vec::new();
                q.push('"');
                push_all(&mut q, &e);
                q.push('"');
                assert(q@ == seq!['"'] + e@ + seq!['"']);
                FieldValue::String(string_of(&q))
            },
            _ => self.duplicate(),
        }
    }

    fn unescape(&self) -> (r: FieldValue) {
        match self {
            FieldValue::String(s) => {
                let v = chars_of(s.as_str());
                let n = v.len();
                let mut inner: Vec<char> = Vec::new();
                if n >= 2 && v[0] == '"' && v[n - 1] == '"' {
                    push_range(&mut inner, &v, 1, n - 1);
                } else {
                    push_range(&mut inner, &v, 0, n);
                    assert(v@.subrange(0, n as int) == v@);
                }
                let u = unescape_chars(&inner, '"');
                let u = unescape_chars(&u, '\\');
                FieldValue::String(string_of(&u))
            },
            _ => self.duplicate(),
        }
    }
}

impl Convert for FieldValue {
    open spec fn convert_view(s: Seq<char>) -> Result<FieldValueView, SetError> {
        field_value_of(s, integer_pattern(s))
    }

    fn parse_from(from: &str) -> (r: Result<FieldValue, SetError>) {
        let shaped = matches_integer_pattern(from);
        FieldValue::from_token(from, shaped)
    }
}

/// Unescaping undoes escaping for every kind of element, whatever characters
/// the text holds: spaces, commas, equals signs, backslashes or quotes.
pub proof fn lemma_escape_round_trip(s: Seq<char>)
    ensures
        Measurement::unescape_view(Measurement::escape_view(s)) == s,
        TagKey::unescape_view(TagKey::escape_view(s)) == s,
        TagValue::unescape_view(TagValue::escape_view(s)) == s,
        FieldKey::unescape_view(FieldKey::escape_view(s)) == s,
        FieldValue::unescape_view(FieldValue::escape_view(FieldValueView::String(s)))
            == FieldValueView::String(s),
{
    Measurement::lemma_unescape_escape(s);
    TagKey::lemma_unescape_escape(s);
    TagValue::lemma_unescape_escape(s);
    FieldKey::lemma_unescape_escape(s);
    FieldValue::lemma_unescape_escape(FieldValueView::String(s));
}

} // verus!
