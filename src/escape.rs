//! Escaping: a character of a chosen class is written with a backslash before
//! it, and unescaping takes one such backslash away again.

use vstd::prelude::*;

verus! {

/// `s` with a backslash written before each character that `special` holds.
pub open spec fn escaped(s: Seq<char>, special: spec_fn(char) -> bool) -> Seq<char>
    decreases s.len(),
{
    if s.len() == 0 {
        seq![]
    } else if special(s[0]) {
        seq!['\\', s[0]] + escaped(s.drop_first(), special)
    } else {
        seq![s[0]] + escaped(s.drop_first(), special)
    }
}

/// `s` with each pair `\c` replaced by `c`, the pairs taken from left to right
/// without overlap, as `str::replace` takes them.
pub open spec fn unescaped(s: Seq<char>, c: char) -> Seq<char>
    decreases s.len(),
{
    if s.len() == 0 {
        seq![]
    } else if s.len() >= 2 && s[0] == '\\' && s[1] == c {
        seq![c] + unescaped(s.skip(2), c)
    } else {
        seq![s[0]] + unescaped(s.drop_first(), c)
    }
}

/// Escaping distributes over concatenation.
pub proof fn lemma_escaped_concat(a: Seq<char>, b: Seq<char>, special: spec_fn(char) -> bool)
    ensures
        escaped(a + b, special) == escaped(a, special) + escaped(b, special),
    decreases a.len(),
{
    if a.len() == 0 {
        assert(a + b == b);
    } else {
        assert((a + b).drop_first() == a.drop_first() + b);
        lemma_escaped_concat(a.drop_first(), b, special);
    }
}

/// Escaping with a class that holds no character leaves `s` as it is.
pub proof fn lemma_escaped_nothing(s: Seq<char>, special: spec_fn(char) -> bool)
    requires
        forall|x: char| !#[trigger] special(x),
    ensures
        escaped(s, special) == s,
    decreases s.len(),
{
    if s.len() > 0 {
        lemma_escaped_nothing(s.drop_first(), special);
        assert(s == seq![s[0]] + s.drop_first());
    }
}

/// An escaped text starts with a backslash or with a character out of the class.
proof fn lemma_escaped_first(s: Seq<char>, special: spec_fn(char) -> bool)
    requires
        s.len() > 0,
    ensures
        escaped(s, special).len() > 0,
        escaped(s, special)[0] == '\\' || !special(escaped(s, special)[0]),
        special(s[0]) ==> escaped(s, special)[0] == '\\',
        !special(s[0]) ==> escaped(s, special)[0] == s[0],
{
}

/// Unescaping one character of the class undoes the escape of that character
/// and of no other.
pub proof fn lemma_unescaped_escaped(
    s: Seq<char>,
    special: spec_fn(char) -> bool,
    rest: spec_fn(char) -> bool,
    c: char,
)
    requires
        special(c),
        forall|x: char| #[trigger] rest(x) == (special(x) && x != c),
    ensures
        unescaped(escaped(s, special), c) == escaped(s, rest),
    decreases s.len(),
{
    if s.len() > 0 {
        let t = s.drop_first();
        let e = escaped(s, special);
        let et = escaped(t, special);
        lemma_unescaped_escaped(t, special, rest, c);
        if special(s[0]) {
            assert(e == seq!['\\', s[0]] + et);
            if s[0] == c {
                assert(e.skip(2) == et);
            } else {
                assert(e.drop_first() == seq![s[0]] + et);
                if s[0] == '\\' && et.len() > 0 {
                    lemma_escaped_first(t, special);
                }
                assert((seq![s[0]] + et).drop_first() == et);
                assert(unescaped(e.drop_first(), c) == seq![s[0]] + unescaped(et, c));
                assert(seq!['\\'] + (seq![s[0]] + escaped(t, rest)) == seq!['\\', s[0]]
                    + escaped(t, rest));
            }
        } else {
            assert(e == seq![s[0]] + et);
            assert(e.drop_first() == et);
            if s[0] == '\\' && et.len() > 0 {
                lemma_escaped_first(t, special);
            }
        }
    }
}

/// The class of the characters that `v` holds.
pub open spec fn class_of(v: Seq<char>) -> spec_fn(char) -> bool {
    |x: char| v.contains(x)
}

/// The characters escaped in a measurement name: space and comma.
pub open spec fn measurement_class() -> spec_fn(char) -> bool {
    class_of(seq![' ', ','])
}

/// The characters escaped in tag keys, tag values and field keys: space,
/// comma and equals sign.
pub open spec fn key_class() -> spec_fn(char) -> bool {
    class_of(seq![' ', ',', '='])
}

/// The characters escaped in a string field value: backslash and double quote.
pub open spec fn string_class() -> spec_fn(char) -> bool {
    class_of(seq!['\\', '"'])
}

/// Space alone.
pub open spec fn space_class() -> spec_fn(char) -> bool {
    class_of(seq![' '])
}

/// Space and comma.
pub open spec fn space_comma_class() -> spec_fn(char) -> bool {
    class_of(seq![' ', ','])
}

/// Backslash alone.
pub open spec fn backslash_class() -> spec_fn(char) -> bool {
    class_of(seq!['\\'])
}

/// No character at all.
pub open spec fn empty_class() -> spec_fn(char) -> bool {
    class_of(Seq::<char>::empty())
}

pub(crate) proof fn lemma_class_members(x: char)
    ensures
        space_class()(x) == (x == ' '),
        space_comma_class()(x) == (x == ' ' || x == ','),
        measurement_class()(x) == (x == ' ' || x == ','),
        key_class()(x) == (x == ' ' || x == ',' || x == '='),
        string_class()(x) == (x == '\\' || x == '"'),
        backslash_class()(x) == (x == '\\'),
        !empty_class()(x),
{
    if x == ' ' {
        assert(seq![' '][0] == x);
        assert(seq![' ', ','][0] == x);
        assert(seq![' ', ',', '='][0] == x);
    }
    if x == ',' {
        assert(seq![' ', ','][1] == x);
        assert(seq![' ', ',', '='][1] == x);
    }
    if x == '=' {
        assert(seq![' ', ',', '='][2] == x);
    }
    if x == '\\' {
        assert(seq!['\\'][0] == x);
        assert(seq!['\\', '"'][0] == x);
    }
    if x == '"' {
        assert(seq!['\\', '"'][1] == x);
    }
}

/// Unescaping a measurement name undoes its escaping.
pub proof fn lemma_measurement_round_trip(s: Seq<char>)
    ensures
        unescaped(unescaped(escaped(s, measurement_class()), ','), ' ') == s,
{
    assert forall|x: char| #[trigger] space_class()(x) == (measurement_class()(x) && x != ',') by {
        lemma_class_members(x);
    }
    assert forall|x: char| #[trigger] empty_class()(x) == (space_class()(x) && x != ' ') by {
        lemma_class_members(x);
    }
    assert forall|x: char| !#[trigger] empty_class()(x) by {
        lemma_class_members(x);
    }
    lemma_class_members(',');
    lemma_class_members(' ');
    lemma_unescaped_escaped(s, measurement_class(), space_class(), ',');
    lemma_unescaped_escaped(s, space_class(), empty_class(), ' ');
    lemma_escaped_nothing(s, empty_class());
}

/// Unescaping a key or a tag value undoes its escaping.
pub proof fn lemma_key_round_trip(s: Seq<char>)
    ensures
        unescaped(unescaped(unescaped(escaped(s, key_class()), '='), ','), ' ') == s,
{
    assert forall|x: char| #[trigger] space_comma_class()(x) == (key_class()(x) && x != '=') by {
        lemma_class_members(x);
    }
    assert forall|x: char| #[trigger] space_class()(x) == (space_comma_class()(x) && x != ',') by {
        lemma_class_members(x);
    }
    assert forall|x: char| #[trigger] empty_class()(x) == (space_class()(x) && x != ' ') by {
        lemma_class_members(x);
    }
    assert forall|x: char| !#[trigger] empty_class()(x) by {
        lemma_class_members(x);
    }
    lemma_class_members('=');
    lemma_class_members(',');
    lemma_class_members(' ');
    lemma_unescaped_escaped(s, key_class(), space_comma_class(), '=');
    lemma_unescaped_escaped(s, space_comma_class(), space_class(), ',');
    lemma_unescaped_escaped(s, space_class(), empty_class(), ' ');
    lemma_escaped_nothing(s, empty_class());
}

/// Unescaping the inside of a quoted string value undoes its escaping.
pub proof fn lemma_string_round_trip(s: Seq<char>)
    ensures
        unescaped(unescaped(escaped(s, string_class()), '"'), '\\') == s,
{
    assert forall|x: char| #[trigger] backslash_class()(x) == (string_class()(x) && x != '"') by {
        lemma_class_members(x);
    }
    assert forall|x: char| #[trigger] empty_class()(x) == (backslash_class()(x) && x != '\\') by {
        lemma_class_members(x);
    }
    assert forall|x: char| !#[trigger] empty_class()(x) by {
        lemma_class_members(x);
    }
    lemma_class_members('"');
    lemma_class_members('\\');
    lemma_unescaped_escaped(s, string_class(), backslash_class(), '"');
    lemma_unescaped_escaped(s, backslash_class(), empty_class(), '\\');
    lemma_escaped_nothing(s, empty_class());
}

/// The characters `a` and `b`, as a vector.
pub(crate) fn chars2(a: char, b: char) -> (r: Vec<char>)
    ensures
        r@ == seq![a, b],
{
    let mut v: Vec<char> = Vec::new();
    v.push(a);
    v.push(b);
    assert(v@ == seq![a, b]);
    v
}

/// The characters `a`, `b` and `c`, as a vector.
pub(crate) fn chars3(a: char, b: char, c: char) -> (r: Vec<char>)
    ensures
        r@ == seq![a, b, c],
{
    let mut v: Vec<char> = Vec::new();
    v.push(a);
    v.push(b);
    v.push(c);
    assert(v@ == seq![a, b, c]);
    v
}

/// Whether `v` holds `c`.
pub(crate) fn contains_char(v: &Vec<char>, c: char) -> (r: bool)
    ensures
        r == v@.contains(c),
{
    let mut i: usize = 0;
    while i < v.len()
        invariant
            i <= v@.len(),
            forall|j: int| 0 <= j < i ==> v@[j] != c,
        decreases v@.len() - i,
    {
        if v[i] == c {
            return true;
        }
        i = i + 1;
    }
    false
}

/// Writes a backslash before each character of `s` that `special` holds.
pub(crate) fn escape_chars(s: &Vec<char>, special: &Vec<char>) -> (r: Vec<char>)
    ensures
        r@ == escaped(s@, class_of(special@)),
{
    let mut out: Vec<char> = Vec::new();
    let mut i: usize = 0;
    while i < s.len()
        invariant
            i <= s@.len(),
            out@ == escaped(s@.take(i as int), class_of(special@)),
        decreases s@.len() - i,
    {
        let c = s[i];
        proof {
            assert(s@.take(i + 1) == s@.take(i as int) + seq![c]);
            lemma_escaped_concat(s@.take(i as int), seq![c], class_of(special@));
            assert(seq![c].drop_first() == Seq::<char>::empty());
            assert(seq![c][0] == c);
            assert(class_of(special@)(c) == special@.contains(c));
            assert(escaped(s@.take(i + 1), class_of(special@)) == escaped(s@.take(i as int), class_of(special@)) + escaped(seq![c], class_of(special@)));
            assert(escaped(Seq::<char>::empty(), class_of(special@)) == Seq::<char>::empty());
            if class_of(special@)(c) {
                assert(escaped(seq![c], class_of(special@)) == seq!['\\', c]);
            } else {
                assert(escaped(seq![c], class_of(special@)) == seq![c]);
            }
        }
        if contains_char(special, c) {
            out.push('\\');
            out.push(c);
            assert(out@ == escaped(s@.take(i as int), class_of(special@)) + seq!['\\', c]);
        } else {
            out.push(c);
            assert(out@ == escaped(s@.take(i as int), class_of(special@)) + seq![c]);
        }
        i = i + 1;
    }
    assert(s@.take(i as int) == s@);
    out
}

/// Replaces each pair `\c` of `s` by `c`, from left to right.
pub(crate) fn unescape_chars(s: &Vec<char>, c: char) -> (r: Vec<char>)
    ensures
        r@ == unescaped(s@, c),
{
    let mut out: Vec<char> = Vec::new();
    let mut i: usize = 0;
    assert(s@.skip(0) == s@);
    while i < s.len()
        invariant
            i <= s@.len(),
            out@ + unescaped(s@.skip(i as int), c) == unescaped(s@, c),
        decreases s@.len() - i,
    {
        let ghost rest = s@.skip(i as int);
        if i + 1 < s.len() && s[i] == '\\' && s[i + 1] == c {
            assert(rest.skip(2) == s@.skip(i + 2));
            out.push(c);
            i = i + 2;
        } else {
            assert(rest.drop_first() == s@.skip(i + 1));
            out.push(s[i]);
            i = i + 1;
        }
    }
    assert(out@ + unescaped(s@.skip(i as int), c) == out@ + Seq::<char>::empty());
    out
}

} // verus!
