//! Building a data point and writing it as a line.
//!
//! Start with [`LineProtocol::new`], add tags, fields and a timestamp, and
//! call [`LineProtocol::build`] for the line. Every method has two forms: one
//! that takes and returns the point, for chaining, and one (`_ref`) that
//! changes it in place.

use vstd::prelude::*;
use vstd::seq_lib::lemma_sorted_unique;

use crate::element::{
    render, FieldKey, FieldValue, FieldValueView, Measurement, TagKey, TagValue,
};
use crate::error::{BuilderError, LineProtocolError};
use crate::escape::{key_class, escaped};
use crate::number::{int_text, push_i64};
use crate::order::{lemma_text_order_total, sort_texts, sorted_texts, text_order, texts_of};
use crate::point::{
    fields_view, find_field, find_tag, key_is_not, lemma_first_index_found, lemma_put_unique,
    lemma_without_unique, put, tags_or_empty, tags_view, well_formed, without, LineProtocol, LineView,
};
use crate::text::{chars_of, push_all, string_of};
use crate::traits::Format;

verus! {

/// The first error that `err` finds among the items of `s`, in order.
pub open spec fn first_error<T>(s: Seq<T>, err: spec_fn(T) -> Option<BuilderError>) -> Option<
    BuilderError,
>
    decreases s.len(),
{
    if s.len() == 0 {
        None
    } else {
        match err(s[0]) {
            Some(e) => Some(e),
            None => first_error(s.drop_first(), err),
        }
    }
}

/// What is wrong with a measurement name, if anything.
pub open spec fn measurement_error(m: Seq<char>) -> Option<BuilderError> {
    if m.len() == 0 {
        Some(BuilderError::EmptyMeasurement)
    } else if m[0] == '_' {
        Some(BuilderError::InvalidMeasurement)
    } else {
        None
    }
}

/// What is wrong with a tag, if anything.
pub open spec fn tag_error() -> spec_fn((Seq<char>, Seq<char>)) -> Option<BuilderError> {
    |p: (Seq<char>, Seq<char>)|
        if p.0.len() == 0 {
            Some(BuilderError::EmptyTagKey)
        } else if p.0[0] == '_' {
            Some(BuilderError::InvalidTagKey)
        } else if p.1.len() == 0 {
            Some(BuilderError::EmptyTagValue)
        } else {
            None
        }
}

/// What is wrong with a field, if anything: only an empty string value is
/// refused among the values.
pub open spec fn field_error() -> spec_fn((Seq<char>, FieldValueView)) -> Option<BuilderError> {
    |p: (Seq<char>, FieldValueView)|
        if p.0.len() == 0 {
            Some(BuilderError::EmptyFieldKey)
        } else if p.0[0] == '_' {
            Some(BuilderError::InvalidFieldKey)
        } else {
            match p.1 {
                FieldValueView::String(s) => if s.len() == 0 {
                    Some(BuilderError::EmptyFieldValue)
                } else {
                    None
                },
                _ => None,
            }
        }
}

/// A tag as the line writes it: `key=value`, both escaped.
pub open spec fn tag_text() -> spec_fn((Seq<char>, Seq<char>)) -> Seq<char> {
    |p: (Seq<char>, Seq<char>)| escaped(p.0, key_class()) + seq!['='] + escaped(p.1, key_class())
}

/// A field as the line writes it: `key=value`, the key escaped and the value
/// rendered from its escaped form (a string value is quoted).
pub open spec fn field_text() -> spec_fn((Seq<char>, FieldValueView)) -> Seq<char> {
    |p: (Seq<char>, FieldValueView)|
        escaped(p.0, key_class()) + seq!['='] + render(FieldValue::escape_view(p.1))
}

/// `texts` with `sep` between each two of them.
pub open spec fn joined(texts: Seq<Seq<char>>, sep: char) -> Seq<char>
    decreases texts.len(),
{
    if texts.len() == 0 {
        seq![]
    } else if texts.len() == 1 {
        texts[0]
    } else {
        joined(texts.drop_last(), sep) + seq![sep] + texts.last()
    }
}

/// The line of a data point, or the first reason it has none: the
/// measurement name is checked first, then the tags in order, then the fields
/// in order, then that there is a field. The line is the escaped measurement
/// name; a comma and the tags sorted by their text, where there is a tag; a
/// space and the fields sorted by their text; and a space and the timestamp,
/// where there is one.
pub open spec fn build_view(p: LineView) -> Result<Seq<char>, BuilderError> {
    if measurement_error(p.measurement) is Some {
        Err(measurement_error(p.measurement)->Some_0)
    } else if p.tags is Some && first_error(p.tags->Some_0, tag_error()) is Some {
        Err(first_error(p.tags->Some_0, tag_error())->Some_0)
    } else if first_error(p.fields, field_error()) is Some {
        Err(first_error(p.fields, field_error())->Some_0)
    } else if p.fields.len() == 0 {
        Err(BuilderError::MissingFields)
    } else {
        let tags = match p.tags {
            Some(t) => if t.len() > 0 {
                seq![','] + joined(sorted_texts(t.map_values(tag_text())), ',')
            } else {
                seq![]
            },
            None => seq![],
        };
        let timestamp = match p.timestamp {
            Some(ts) => seq![' '] + int_text(ts as int),
            None => seq![],
        };
        Ok(Measurement::escape_view(p.measurement) + tags + seq![' '] + joined(
            sorted_texts(p.fields.map_values(field_text())),
            ',',
        ) + timestamp)
    }
}

/// Appends `items` to `out` with `sep` between each two.
fn push_joined(out: &mut Vec<char>, items: &Vec<Vec<char>>, sep: char)
    ensures
        final(out)@ == old(out)@ + joined(texts_of(items@), sep),
{
    let mut j: usize = 0;
    while j < items.len()
        invariant
            j <= items@.len(),
            out@ == old(out)@ + joined(texts_of(items@.take(j as int)), sep),
        decreases items@.len() - j,
    {
        proof {
            let t = texts_of(items@.take(j + 1));
            assert(t.drop_last() == texts_of(items@.take(j as int)));
            assert(t.last() == items@[j as int]@);
        }
        if j > 0 {
            out.push(sep);
        }
        push_all(out, &items[j]);
        j = j + 1;
    }
    assert(items@.take(j as int) == items@);
}

/// The texts of the tags, or the first error among them.
fn tag_texts(tags: &Vec<(TagKey, TagValue)>) -> (r: Result<Vec<Vec<char>>, BuilderError>)
    ensures
        match first_error(tags_view(tags@), tag_error()) {
            Some(e) => r == Err::<Vec<Vec<char>>, BuilderError>(e),
            None => r is Ok && texts_of(r->Ok_0@) == tags_view(tags@).map_values(tag_text()),
        },
{
    let ghost s = tags_view(tags@);
    let mut out: Vec<Vec<char>> = Vec::new();
    let mut j: usize = 0;
    assert(s.skip(0) == s);
    while j < tags.len()
        invariant
            j <= tags@.len(),
            s == tags_view(tags@),
            first_error(s, tag_error()) == first_error(s.skip(j as int), tag_error()),
            texts_of(out@) == s.take(j as int).map_values(tag_text()),
        decreases tags@.len() - j,
    {
        assert(s.skip(j as int).drop_first() == s.skip(j + 1));
        assert(s.skip(j as int)[0] == s[j as int]);
        let key = chars_of(tags[j].0.0.as_str());
        let value = chars_of(tags[j].1.0.as_str());
        if key.len() == 0 {
            return Err(BuilderError::EmptyTagKey);
        }
        if key[0] == '_' {
            return Err(BuilderError::InvalidTagKey);
        }
        if value.len() == 0 {
            return Err(BuilderError::EmptyTagValue);
        }
        let mut text = chars_of(tags[j].0.escape().0.as_str());
        text.push('=');
        push_all(&mut text, &chars_of(tags[j].1.escape().0.as_str()));
        let ghost before = out@;
        let ghost t = text@;
        assert(s[j as int] == (tags@[j as int].0@, tags@[j as int].1@));
        assert(t == tag_text()(s[j as int]));
        out.push(text);
        proof {
            assert(s.take(j + 1) == s.take(j as int).push(s[j as int]));
            assert(texts_of(out@) == texts_of(before).push(t));
            assert(s.take(j + 1).map_values(tag_text()) == s.take(j as int).map_values(tag_text()).push(
                tag_text()(s[j as int]),
            ));
        }
        j = j + 1;
    }
    assert(s.take(j as int) == s);
    assert(s.skip(j as int).len() == 0);
    Ok(out)
}

/// The texts of the fields, or the first error among them.
fn field_texts(fields: &Vec<(FieldKey, FieldValue)>) -> (r: Result<Vec<Vec<char>>, BuilderError>)
    ensures
        match first_error(fields_view(fields@), field_error()) {
            Some(e) => r == Err::<Vec<Vec<char>>, BuilderError>(e),
            None => r is Ok && texts_of(r->Ok_0@) == fields_view(fields@).map_values(field_text()),
        },
{
    let ghost s = fields_view(fields@);
    let mut out: Vec<Vec<char>> = Vec::new();
    let mut j: usize = 0;
    assert(s.skip(0) == s);
    while j < fields.len()
        invariant
            j <= fields@.len(),
            s == fields_view(fields@),
            first_error(s, field_error()) == first_error(s.skip(j as int), field_error()),
            texts_of(out@) == s.take(j as int).map_values(field_text()),
        decreases fields@.len() - j,
    {
        assert(s.skip(j as int).drop_first() == s.skip(j + 1));
        assert(s.skip(j as int)[0] == s[j as int]);
        assert(s[j as int] == (fields@[j as int].0@, fields@[j as int].1@));
        let key = chars_of(fields[j].0.0.as_str());
        if key.len() == 0 {
            return Err(BuilderError::EmptyFieldKey);
        }
        if key[0] == '_' {
            return Err(BuilderError::InvalidFieldKey);
        }
        match &fields[j].1 {
            FieldValue::String(v) => {
                if chars_of(v.as_str()).len() == 0 {
                    return Err(BuilderError::EmptyFieldValue);
                }
            },
            _ => {},
        }
        let mut text = chars_of(fields[j].0.escape().0.as_str());
        text.push('=');
        push_all(&mut text, &chars_of(fields[j].1.escape().to_string().as_str()));
        let ghost before = out@;
        let ghost t = text@;
        assert(t == field_text()(s[j as int]));
        out.push(text);
        proof {
            assert(s.take(j + 1) == s.take(j as int).push(s[j as int]));
            assert(texts_of(out@) == texts_of(before).push(t));
            assert(s.take(j + 1).map_values(field_text()) == s.take(j as int).map_values(
                field_text(),
            ).push(field_text()(s[j as int])));
        }
        j = j + 1;
    }
    assert(s.take(j as int) == s);
    assert(s.skip(j as int).len() == 0);
    Ok(out)
}


/// Sets tag `k` to `v` in `tags`.
pub(crate) fn put_tag(tags: &mut Vec<(TagKey, TagValue)>, k: String, v: String)
    ensures
        tags_view(final(tags)@) == put(tags_view(old(tags)@), k@, v@),
{
    let ghost kv = k@;
    let ghost vv = v@;
    proof {
        lemma_first_index_found(tags_view(tags@), k@);
    }
    match find_tag(tags, &k) {
        Some(i) => {
            tags.remove(i);
            tags.insert(i, (TagKey(k), TagValue(v)));
            assert(tags_view(tags@) == tags_view(old(tags)@).update(i as int, (kv, vv)));
        },
        None => {
            tags.push((TagKey(k), TagValue(v)));
            assert(tags_view(tags@) == tags_view(old(tags)@).push((kv, vv)));
        },
    }
}

/// Sets field `k` to `v` in `fields`.
pub(crate) fn put_field(fields: &mut Vec<(FieldKey, FieldValue)>, k: String, v: FieldValue)
    ensures
        fields_view(final(fields)@) == put(fields_view(old(fields)@), k@, v@),
{
    let ghost kv = k@;
    let ghost vv = v@;
    proof {
        lemma_first_index_found(fields_view(fields@), k@);
    }
    match find_field(fields, &k) {
        Some(i) => {
            fields.remove(i);
            fields.insert(i, (FieldKey(k), v));
            assert(fields_view(fields@) == fields_view(old(fields)@).update(i as int, (kv, vv)));
            assert(put(fields_view(old(fields)@), kv, vv) == fields_view(old(fields)@).update(
                i as int,
                (kv, vv),
            ));
        },
        None => {
            fields.push((FieldKey(k), v));
            assert(fields_view(fields@) == fields_view(old(fields)@).push((kv, vv)));
            assert(put(fields_view(old(fields)@), kv, vv) == fields_view(old(fields)@).push(
                (kv, vv),
            ));
        },
    }
}

/// Takes every tag of key `k` out of `tags`.
fn drop_tag(tags: &mut Vec<(TagKey, TagValue)>, k: &String)
    ensures
        tags_view(final(tags)@) == without(tags_view(old(tags)@), k@),
{
    let ghost orig = old(tags)@;
    let mut rest: Vec<(TagKey, TagValue)> = Vec::new();
    core::mem::swap(tags, &mut rest);
    let ghost n = rest@.len();
    assert(orig.take(0) == Seq::<(TagKey, TagValue)>::empty());
    assert(without(tags_view(Seq::<(TagKey, TagValue)>::empty()), k@) == Seq::<
        (Seq<char>, Seq<char>),
    >::empty());
    while rest.len() > 0
        invariant
            n == orig.len(),
            rest.len() <= n,
            rest@ == orig.skip(n - rest.len()),
            tags_view(tags@) == without(tags_view(orig.take(n - rest.len())), k@),
        decreases rest.len(),
    {
        let ghost done = n - rest.len();
        let p = rest.remove(0);
        assert(orig.skip(done).drop_first() == orig.skip(done + 1));
        assert(orig.take(done + 1) == orig.take(done).push(p));
        assert(tags_view(orig.take(done + 1)) == tags_view(orig.take(done)).push((p.0@, p.1@)));
        proof {
            tags_view(orig.take(done)).lemma_filter_push((p.0@, p.1@), key_is_not(k@));
        }
        if p.0.0 != *k {
            tags.push(p);
        }
    }
    assert(orig.take(n as int) == orig);
}

/// Takes every field of key `k` out of `fields`.
fn drop_field(fields: &mut Vec<(FieldKey, FieldValue)>, k: &String)
    ensures
        fields_view(final(fields)@) == without(fields_view(old(fields)@), k@),
{
    let ghost orig = old(fields)@;
    let mut rest: Vec<(FieldKey, FieldValue)> = Vec::new();
    core::mem::swap(fields, &mut rest);
    let ghost n = rest@.len();
    assert(orig.take(0) == Seq::<(FieldKey, FieldValue)>::empty());
    assert(without(fields_view(Seq::<(FieldKey, FieldValue)>::empty()), k@) == Seq::<
        (Seq<char>, FieldValueView),
    >::empty());
    while rest.len() > 0
        invariant
            n == orig.len(),
            rest.len() <= n,
            rest@ == orig.skip(n - rest.len()),
            fields_view(fields@) == without(fields_view(orig.take(n - rest.len())), k@),
        decreases rest.len(),
    {
        let ghost done = n - rest.len();
        let p = rest.remove(0);
        assert(orig.skip(done).drop_first() == orig.skip(done + 1));
        assert(orig.take(done + 1) == orig.take(done).push(p));
        assert(fields_view(orig.take(done + 1)) == fields_view(orig.take(done)).push(
            (p.0@, p.1@),
        ));
        proof {
            fields_view(orig.take(done)).lemma_filter_push((p.0@, p.1@), key_is_not(k@));
        }
        if p.0.0 != *k {
            fields.push(p);
        }
    }
    assert(orig.take(n as int) == orig);
}

impl LineProtocol {
    /// A data point with the measurement name `measurement`, no tag set, no
    /// field and no timestamp.
    pub fn new(measurement: &str) -> (r: LineProtocol)
        ensures
            r@.measurement == measurement@,
            r@.tags is None,
            r@.fields == Seq::<(Seq<char>, FieldValueView)>::empty(),
            r@.timestamp is None,
            well_formed(r@),
    {
        let r = LineProtocol {
            measurement: Measurement::from(measurement),
            tags: None,
            fields: Vec::new(),
            timestamp: None,
        };
        assert(fields_view(r.fields@) == Seq::<(Seq<char>, FieldValueView)>::empty());
        r
    }

    /// Replaces the measurement name.
    pub fn measurement_ref(&mut self, measurement: &str)
        ensures
            final(self)@.measurement == measurement@,
            final(self)@.tags == old(self)@.tags,
            final(self)@.fields == old(self)@.fields,
            final(self)@.timestamp == old(self)@.timestamp,
            well_formed(old(self)@) ==> well_formed(final(self)@),
    {
        self.measurement = Measurement::from(measurement);
    }

    /// Replaces the measurement name.
    pub fn measurement(self, measurement: &str) -> (r: LineProtocol)
        ensures
            r@.measurement == measurement@,
            r@.tags == self@.tags,
            r@.fields == self@.fields,
            r@.timestamp == self@.timestamp,
            well_formed(self@) ==> well_formed(r@),
    {
        let mut p = self;
        p.measurement_ref(measurement);
        p
    }

    /// Sets tag `key` to `value`, adding it where the key is new. A point with
    /// no tag set gets one.
    pub fn add_tag_ref(&mut self, key: &str, value: &str)
        ensures
            final(self)@.measurement == old(self)@.measurement,
            final(self)@.tags == Some(put(tags_or_empty(old(self)@), key@, value@)),
            final(self)@.fields == old(self)@.fields,
            final(self)@.timestamp == old(self)@.timestamp,
            well_formed(old(self)@) ==> well_formed(final(self)@),
    {
        proof {
            if well_formed(old(self)@) {
                lemma_put_unique(tags_or_empty(old(self)@), key@, value@);
            }
        }
        let mut tags = match self.tags.take() {
            Some(t) => t,
            None => Vec::new(),
        };
        assert(tags_view(tags@) == tags_or_empty(old(self)@));
        put_tag(&mut tags, key.to_owned(), value.to_owned());
        self.tags = Some(tags);
    }

    /// Sets tag `key` to `value`, adding it where the key is new. A point with
    /// no tag set gets one.
    pub fn add_tag(self, key: &str, value: &str) -> (r: LineProtocol)
        ensures
            r@.measurement == self@.measurement,
            r@.tags == Some(put(tags_or_empty(self@), key@, value@)),
            r@.fields == self@.fields,
            r@.timestamp == self@.timestamp,
            well_formed(self@) ==> well_formed(r@),
    {
        let mut p = self;
        p.add_tag_ref(key, value);
        p
    }

    /// Removes tag `key` from the tag set, if the point has one; a point with
    /// no tag set keeps none.
    pub fn delete_tag_ref(&mut self, key: &str)
        ensures
            final(self)@.measurement == old(self)@.measurement,
            final(self)@.tags == match old(self)@.tags {
                Some(t) => Some(without(t, key@)),
                None => None,
            },
            final(self)@.fields == old(self)@.fields,
            final(self)@.timestamp == old(self)@.timestamp,
            well_formed(old(self)@) ==> well_formed(final(self)@),
    {
        proof {
            if well_formed(old(self)@) && old(self)@.tags is Some {
                lemma_without_unique(old(self)@.tags->Some_0, key@);
            }
        }
        match self.tags.take() {
            Some(t) => {
                let mut tags = t;
                drop_tag(&mut tags, &key.to_owned());
                self.tags = Some(tags);
            },
            None => {},
        }
    }

    /// Removes tag `key` from the tag set, if the point has one; a point with
    /// no tag set keeps none.
    pub fn delete_tag(self, key: &str) -> (r: LineProtocol)
        ensures
            r@.measurement == self@.measurement,
            r@.tags == match self@.tags {
                Some(t) => Some(without(t, key@)),
                None => None,
            },
            r@.fields == self@.fields,
            r@.timestamp == self@.timestamp,
            well_formed(self@) ==> well_formed(r@),
    {
        let mut p = self;
        p.delete_tag_ref(key);
        p
    }

    /// Sets field `key` to `value`, adding it where the key is new.
    pub fn add_field_ref(&mut self, key: &str, value: FieldValue)
        ensures
            final(self)@.measurement == old(self)@.measurement,
            final(self)@.tags == old(self)@.tags,
            final(self)@.fields == put(old(self)@.fields, key@, value@),
            final(self)@.timestamp == old(self)@.timestamp,
            well_formed(old(self)@) ==> well_formed(final(self)@),
    {
        proof {
            if well_formed(old(self)@) {
                lemma_put_unique(old(self)@.fields, key@, value@);
            }
        }
        put_field(&mut self.fields, key.to_owned(), value);
    }

    /// Sets field `key` to `value`, adding it where the key is new.
    pub fn add_field(self, key: &str, value: FieldValue) -> (r: LineProtocol)
        ensures
            r@.measurement == self@.measurement,
            r@.tags == self@.tags,
            r@.fields == put(self@.fields, key@, value@),
            r@.timestamp == self@.timestamp,
            well_formed(self@) ==> well_formed(r@),
    {
        let mut p = self;
        p.add_field_ref(key, value);
        p
    }

    /// Removes field `key`.
    pub fn delete_field_ref(&mut self, key: &str)
        ensures
            final(self)@.measurement == old(self)@.measurement,
            final(self)@.tags == old(self)@.tags,
            final(self)@.fields == without(old(self)@.fields, key@),
            final(self)@.timestamp == old(self)@.timestamp,
            well_formed(old(self)@) ==> well_formed(final(self)@),
    {
        proof {
            if well_formed(old(self)@) {
                lemma_without_unique(old(self)@.fields, key@);
            }
        }
        drop_field(&mut self.fields, &key.to_owned());
    }

    /// Removes field `key`.
    pub fn delete_field(self, key: &str) -> (r: LineProtocol)
        ensures
            r@.measurement == self@.measurement,
            r@.tags == self@.tags,
            r@.fields == without(self@.fields, key@),
            r@.timestamp == self@.timestamp,
            well_formed(self@) ==> well_formed(r@),
    {
        let mut p = self;
        p.delete_field_ref(key);
        p
    }

    /// Sets the timestamp.
    pub fn with_timestamp_ref(&mut self, timestamp: i64)
        ensures
            final(self)@.measurement == old(self)@.measurement,
            final(self)@.tags == old(self)@.tags,
            final(self)@.fields == old(self)@.fields,
            final(self)@.timestamp == Some(timestamp),
            well_formed(old(self)@) ==> well_formed(final(self)@),
    {
        self.timestamp = Some(timestamp);
    }

    /// Sets the timestamp.
    pub fn with_timestamp(self, timestamp: i64) -> (r: LineProtocol)
        ensures
            r@.measurement == self@.measurement,
            r@.tags == self@.tags,
            r@.fields == self@.fields,
            r@.timestamp == Some(timestamp),
            well_formed(self@) ==> well_formed(r@),
    {
        let mut p = self;
        p.with_timestamp_ref(timestamp);
        p
    }

    /// Removes the timestamp.
    pub fn delete_timestamp_ref(&mut self)
        ensures
            final(self)@.measurement == old(self)@.measurement,
            final(self)@.tags == old(self)@.tags,
            final(self)@.fields == old(self)@.fields,
            final(self)@.timestamp is None,
            well_formed(old(self)@) ==> well_formed(final(self)@),
    {
        self.timestamp = None;
    }

    /// Removes the timestamp.
    pub fn delete_timestamp(self) -> (r: LineProtocol)
        ensures
            r@.measurement == self@.measurement,
            r@.tags == self@.tags,
            r@.fields == self@.fields,
            r@.timestamp is None,
            well_formed(self@) ==> well_formed(r@),
    {
        let mut p = self;
        p.delete_timestamp_ref();
        p
    }

    /// Writes the data point as a line; see [`build_view`]. Nothing is written
    /// where the point breaks a naming rule or has no field.
    pub fn build(&self) -> (r: Result<String, LineProtocolError>)
        ensures
            match build_view(self@) {
                Ok(t) => r is Ok && r->Ok_0@ == t,
                Err(e) => r == Err::<String, LineProtocolError>(LineProtocolError::BuilderError(e)),
            },
    {
        let m = chars_of(self.measurement.0.as_str());
        if m.len() == 0 {
            return Err(LineProtocolError::BuilderError(BuilderError::EmptyMeasurement));
        }
        if m[0] == '_' {
            return Err(LineProtocolError::BuilderError(BuilderError::InvalidMeasurement));
        }
        let mut line = chars_of(self.measurement.escape().0.as_str());
        let ghost head = line@;
        match &self.tags {
            Some(tags) => {
                match tag_texts(tags) {
                    Err(e) => {
                        return Err(LineProtocolError::BuilderError(e));
                    },
                    Ok(texts) => {
                        assert(texts_of(texts@).len() == texts@.len());
                        if texts.len() > 0 {
                            let sorted = sort_texts(texts);
                            line.push(',');
                            push_joined(&mut line, &sorted, ',');
                        }
                    },
                }
            },
            None => {},
        }
        let ghost with_tags = line@;
        let texts = match field_texts(&self.fields) {
            Err(e) => {
                return Err(LineProtocolError::BuilderError(e));
            },
            Ok(texts) => texts,
        };
        assert(texts_of(texts@).len() == texts@.len());
        assert(fields_view(self.fields@).len() == self.fields@.len());
        if texts.len() == 0 {
            return Err(LineProtocolError::BuilderError(BuilderError::MissingFields));
        }
        let sorted = sort_texts(texts);
        line.push(' ');
        push_joined(&mut line, &sorted, ',');
        let ghost with_fields = line@;
        match self.timestamp {
            Some(ts) => {
                line.push(' ');
                push_i64(&mut line, ts);
            },
            None => {},
        }
        proof {
            let p = self@;
            let tags = match p.tags {
                Some(t) => if t.len() > 0 {
                    seq![','] + joined(sorted_texts(t.map_values(tag_text())), ',')
                } else {
                    seq![]
                },
                None => seq![],
            };
            let timestamp = match p.timestamp {
                Some(ts) => seq![' '] + int_text(ts as int),
                None => seq![],
            };
            assert(with_tags == head + tags);
            assert(line@ == with_fields + timestamp);
        }
        Ok(string_of(&line))
    }
}

/// Every item passes `err` exactly where `first_error` finds nothing.
pub(crate) proof fn lemma_first_error_none<T>(s: Seq<T>, err: spec_fn(T) -> Option<BuilderError>)
    ensures
        first_error(s, err) is None <==> forall|i: int| 0 <= i < s.len() ==> (#[trigger] err(s[i])) is None,
    decreases s.len(),
{
    if s.len() > 0 {
        lemma_first_error_none(s.drop_first(), err);
        if first_error(s, err) is None {
            assert forall|i: int| 0 <= i < s.len() implies (#[trigger] err(s[i])) is None by {
                if i > 0 {
                    assert(s[i] == s.drop_first()[i - 1]);
                }
            }
        }
        if forall|i: int| 0 <= i < s.len() ==> (#[trigger] err(s[i])) is None {
            assert(err(s[0]) is None);
            assert forall|i: int| 0 <= i < s.drop_first().len() implies (#[trigger] err(
                s.drop_first()[i],
            )) is None by {
                assert(s.drop_first()[i] == s[i + 1]);
            }
        }
    }
}

/// Reordering the items of a sequence reorders their images too.
proof fn lemma_map_multiset<A, B>(s1: Seq<A>, s2: Seq<A>, g: spec_fn(A) -> B)
    requires
        s1.to_multiset() == s2.to_multiset(),
    ensures
        s1.map_values(g).to_multiset() == s2.map_values(g).to_multiset(),
    decreases s1.len(),
{
    broadcast use vstd::seq_lib::group_to_multiset_ensures;
    broadcast use vstd::multiset::group_multiset_axioms;

    s1.to_multiset_ensures();
    s2.to_multiset_ensures();
    if s1.len() == 0 {
        assert(s2.len() == 0);
        assert(s1.map_values(g) =~= s2.map_values(g));
    } else {
        let x = s1.last();
        let s1p = s1.drop_last();
        assert(s1 == s1p.push(x));
        s1p.to_multiset_ensures();
        assert(s1.to_multiset().count(x) > 0);
        assert(s2.contains(x));
        let j = choose|j: int| 0 <= j < s2.len() && s2[j] == x;
        let s2p = s2.remove(j);
        assert(s2p.to_multiset() =~= s2.to_multiset().remove(x));
        assert(s1p.to_multiset() =~= s2p.to_multiset());
        lemma_map_multiset(s1p, s2p, g);
        let m1 = s1.map_values(g);
        let m2 = s2.map_values(g);
        assert(m1 == s1p.map_values(g).push(g(x)));
        s1p.map_values(g).to_multiset_ensures();
        m2.to_multiset_ensures();
        assert(m2.remove(j) == s2p.map_values(g));
        assert(m2[j] == g(x));
        assert(m2.contains(g(x)));
        assert(m2.to_multiset() =~= s2p.map_values(g).to_multiset().insert(g(x)));
    }
}

/// Texts that are a reordering of each other sort alike.
proof fn lemma_sorted_texts_multiset(x: Seq<Seq<char>>, y: Seq<Seq<char>>)
    requires
        x.to_multiset() == y.to_multiset(),
    ensures
        sorted_texts(x) == sorted_texts(y),
{
    lemma_text_order_total();
    x.lemma_sort_by_ensures(text_order());
    y.lemma_sort_by_ensures(text_order());
    lemma_sorted_unique(sorted_texts(x), sorted_texts(y), text_order());
}

/// Each item of a reordering stands in the sequence it reorders.
proof fn lemma_multiset_items<A>(s1: Seq<A>, s2: Seq<A>, i: int)
    requires
        s1.to_multiset() == s2.to_multiset(),
        0 <= i < s2.len(),
    ensures
        exists|j: int| 0 <= j < s1.len() && s1[j] == s2[i],
{
    s1.to_multiset_ensures();
    s2.to_multiset_ensures();
    assert(s2.contains(s2[i]));
    assert(s2.to_multiset().count(s2[i]) > 0);
    assert(s1.to_multiset().count(s2[i]) > 0);
    assert(s1.contains(s2[i]));
}

/// The line of a data point does not depend on the order in which its tags and
/// fields were added: a point whose tag list and field list are reorderings of
/// those of a point that builds has the same line, tags and fields being
/// sorted by their text.
pub proof fn lemma_build_ignores_order(a: LineView, b: LineView)
    requires
        a.measurement == b.measurement,
        a.timestamp == b.timestamp,
        a.tags is Some <==> b.tags is Some,
        a.tags is Some ==> a.tags->Some_0.to_multiset() == b.tags->Some_0.to_multiset(),
        a.fields.to_multiset() == b.fields.to_multiset(),
        build_view(a) is Ok,
    ensures
        build_view(b) == build_view(a),
{
    a.fields.to_multiset_ensures();
    b.fields.to_multiset_ensures();
    lemma_first_error_none(a.fields, field_error());
    lemma_first_error_none(b.fields, field_error());
    assert forall|i: int| 0 <= i < b.fields.len() implies (#[trigger] field_error()(b.fields[i])) is None by {
        lemma_multiset_items(a.fields, b.fields, i);
    }
    lemma_map_multiset(a.fields, b.fields, field_text());
    lemma_sorted_texts_multiset(a.fields.map_values(field_text()), b.fields.map_values(field_text()));
    if a.tags is Some {
        let ta = a.tags->Some_0;
        let tb = b.tags->Some_0;
        ta.to_multiset_ensures();
        tb.to_multiset_ensures();
        assert(ta.len() == tb.len());
        lemma_first_error_none(ta, tag_error());
        lemma_first_error_none(tb, tag_error());
        assert forall|i: int| 0 <= i < tb.len() implies (#[trigger] tag_error()(tb[i])) is None by {
            lemma_multiset_items(ta, tb, i);
        }
        lemma_map_multiset(ta, tb, tag_text());
        lemma_sorted_texts_multiset(ta.map_values(tag_text()), tb.map_values(tag_text()));
    }
}

} // verus!
