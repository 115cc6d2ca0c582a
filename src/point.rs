//! A data point: a measurement name, an optional tag set, a field set and an
//! optional timestamp.

use vstd::prelude::*;

use crate::element::{FieldKey, FieldValue, FieldValueView, Measurement, TagKey, TagValue};

verus! {

/// One observation, as one line of the protocol holds it.
///
/// The tag set and the field set are lists of pairs. A key is meant to occur
/// once in each ([`well_formed`]): every point the parser reads is so, and the
/// methods that change a point keep it so. Where a key does occur twice (the
/// fields are public), its first pair is the one that counts.
#[derive(Debug, Clone)]
pub struct LineProtocol {
    /// The measurement name.
    pub measurement: Measurement,
    /// The tag set; `None` where no tag was ever added.
    pub tags: Option<Vec<(TagKey, TagValue)>>,
    /// The field set.
    pub fields: Vec<(FieldKey, FieldValue)>,
    /// The timestamp, of whatever precision the caller uses.
    pub timestamp: Option<i64>,
}

/// What a [`LineProtocol`] holds.
pub struct LineView {
    pub measurement: Seq<char>,
    pub tags: Option<Seq<(Seq<char>, Seq<char>)>>,
    pub fields: Seq<(Seq<char>, FieldValueView)>,
    pub timestamp: Option<i64>,
}

/// The texts of a tag set.
pub open spec fn tags_view(tags: Seq<(TagKey, TagValue)>) -> Seq<(Seq<char>, Seq<char>)> {
    tags.map_values(|p: (TagKey, TagValue)| (p.0@, p.1@))
}

/// The texts and values of a field set.
pub open spec fn fields_view(fields: Seq<(FieldKey, FieldValue)>) -> Seq<(Seq<char>, FieldValueView)> {
    fields.map_values(|p: (FieldKey, FieldValue)| (p.0@, p.1@))
}

impl View for LineProtocol {
    type V = LineView;

    open spec fn view(&self) -> LineView {
        LineView {
            measurement: self.measurement@,
            tags: match self.tags {
                Some(t) => Some(tags_view(t@)),
                None => None,
            },
            fields: fields_view(self.fields@),
            timestamp: self.timestamp,
        }
    }
}

/// The index of the first pair of `s` whose key is `k`.
pub open spec fn first_index<V>(s: Seq<(Seq<char>, V)>, k: Seq<char>) -> Option<int>
    decreases s.len(),
{
    if s.len() == 0 {
        None
    } else if s[0].0 == k {
        Some(0)
    } else {
        match first_index(s.drop_first(), k) {
            Some(i) => Some(i + 1),
            None => None,
        }
    }
}

/// The value of the first pair of `s` whose key is `k`.
pub open spec fn lookup<V>(s: Seq<(Seq<char>, V)>, k: Seq<char>) -> Option<V> {
    match first_index(s, k) {
        Some(i) => Some(s[i].1),
        None => None,
    }
}

/// `s` with the value of key `k` set to `v`: the first pair of that key is
/// replaced, or the pair is added at the end where the key is new.
pub open spec fn put<V>(s: Seq<(Seq<char>, V)>, k: Seq<char>, v: V) -> Seq<(Seq<char>, V)> {
    match first_index(s, k) {
        Some(i) => s.update(i, (k, v)),
        None => s.push((k, v)),
    }
}

/// `s` without the pairs of key `k`.
pub open spec fn without<V>(s: Seq<(Seq<char>, V)>, k: Seq<char>) -> Seq<(Seq<char>, V)> {
    s.filter(key_is_not(k))
}

/// Whether a pair's key is other than `k`.
pub open spec fn key_is_not<V>(k: Seq<char>) -> spec_fn((Seq<char>, V)) -> bool {
    |p: (Seq<char>, V)| p.0 != k
}

/// The map from each key of `s` to the value of its first pair.
pub open spec fn pairs_map<V>(s: Seq<(Seq<char>, V)>) -> Map<Seq<char>, V> {
    Map::new(|k: Seq<char>| first_index(s, k) is Some, |k: Seq<char>| lookup(s, k)->Some_0)
}

/// What `first_index` is, in terms of the pairs before it.
pub proof fn lemma_first_index<V>(s: Seq<(Seq<char>, V)>, k: Seq<char>, i: int)
    requires
        0 <= i <= s.len(),
        forall|j: int| 0 <= j < i ==> (#[trigger] s[j]).0 != k,
    ensures
        i < s.len() && s[i].0 == k ==> first_index(s, k) == Some(i),
        i == s.len() ==> first_index(s, k) is None,
    decreases s.len(),
{
    if s.len() > 0 && i > 0 {
        assert forall|j: int| 0 <= j < i - 1 implies (#[trigger] s.drop_first()[j]).0 != k by {
            assert(s.drop_first()[j] == s[j + 1]);
        }
        lemma_first_index(s.drop_first(), k, i - 1);
    }
}

/// A found index is a pair of that key, with no such pair before it.
pub proof fn lemma_first_index_found<V>(s: Seq<(Seq<char>, V)>, k: Seq<char>)
    ensures
        match first_index(s, k) {
            Some(i) => 0 <= i < s.len() && s[i].0 == k && forall|j: int|
                0 <= j < i ==> (#[trigger] s[j]).0 != k,
            None => forall|j: int| 0 <= j < s.len() ==> (#[trigger] s[j]).0 != k,
        },
    decreases s.len(),
{
    if s.len() > 0 {
        lemma_first_index_found(s.drop_first(), k);
        if s[0].0 != k {
            assert forall|j: int| 1 <= j < s.len() implies (#[trigger] s[j]).0 == s.drop_first()[j
                - 1].0 by {}
        }
    }
}

/// Finds the first tag of key `k`.
pub(crate) fn find_tag(tags: &Vec<(TagKey, TagValue)>, k: &String) -> (r: Option<usize>)
    ensures
        match r {
            Some(j) => first_index(tags_view(tags@), k@) == Some(j as int),
            None => first_index(tags_view(tags@), k@) is None,
        },
{
    let ghost s = tags_view(tags@);
    let mut j: usize = 0;
    while j < tags.len()
        invariant
            j <= tags@.len(),
            s == tags_view(tags@),
            forall|i: int| 0 <= i < j ==> (#[trigger] s[i]).0 != k@,
        decreases tags@.len() - j,
    {
        if tags[j].0.0 == *k {
            proof {
                lemma_first_index(s, k@, j as int);
            }
            return Some(j);
        }
        j = j + 1;
    }
    proof {
        lemma_first_index(s, k@, j as int);
    }
    None
}

/// Finds the first field of key `k`.
pub(crate) fn find_field(fields: &Vec<(FieldKey, FieldValue)>, k: &String) -> (r: Option<usize>)
    ensures
        match r {
            Some(j) => first_index(fields_view(fields@), k@) == Some(j as int),
            None => first_index(fields_view(fields@), k@) is None,
        },
{
    let ghost s = fields_view(fields@);
    let mut j: usize = 0;
    while j < fields.len()
        invariant
            j <= fields@.len(),
            s == fields_view(fields@),
            forall|i: int| 0 <= i < j ==> (#[trigger] s[i]).0 != k@,
        decreases fields@.len() - j,
    {
        if fields[j].0.0 == *k {
            proof {
                lemma_first_index(s, k@, j as int);
            }
            return Some(j);
        }
        j = j + 1;
    }
    proof {
        lemma_first_index(s, k@, j as int);
    }
    None
}

/// Whether two data points are the same point: the same measurement name, tag
/// sets with the same tags (or no tag set on either side) and the same
/// timestamp. Fields do not count: two lines of the same point add to its
/// fields.
pub open spec fn same_point(a: LineView, b: LineView) -> bool {
    &&& a.measurement == b.measurement
    &&& match (a.tags, b.tags) {
        (Some(x), Some(y)) => pairs_map(x) == pairs_map(y),
        (None, None) => true,
        _ => false,
    }
    &&& a.timestamp == b.timestamp
}

/// Whether every key of `x` has the same value in `y`.
fn tags_covered(x: &Vec<(TagKey, TagValue)>, y: &Vec<(TagKey, TagValue)>) -> (r: bool)
    ensures
        r == (forall|k: Seq<char>|
            #[trigger] first_index(tags_view(x@), k) is Some ==> lookup(tags_view(y@), k)
                == lookup(tags_view(x@), k)),
{
    let ghost tx = tags_view(x@);
    let ghost ty = tags_view(y@);
    let mut i: usize = 0;
    while i < x.len()
        invariant
            i <= x@.len(),
            tx == tags_view(x@),
            ty == tags_view(y@),
            forall|j: int| 0 <= j < i ==> lookup(ty, (#[trigger] tx[j]).0) == lookup(tx, tx[j].0),
        decreases x@.len() - i,
    {
        let k = &x[i].0.0;
        proof {
            lemma_first_index_found(tx, k@);
            lemma_first_index_found(ty, k@);
            assert(tx[i as int].0 == k@);
        }
        let fx = match find_tag(x, k) {
            Some(f) => f,
            None => {
                return false;
            },
        };
        match find_tag(y, k) {
            None => {
                return false;
            },
            Some(fy) => {
                assert(tx[fx as int] == (x@[fx as int].0@, x@[fx as int].1@));
                assert(ty[fy as int] == (y@[fy as int].0@, y@[fy as int].1@));
                assert(lookup(tx, k@) == Some(tx[fx as int].1));
                assert(lookup(ty, k@) == Some(ty[fy as int].1));
                if x[fx].1.0 != y[fy].1.0 {
                    assert(first_index(tx, k@) is Some);
                    return false;
                }
            },
        }
        i = i + 1;
    }
    assert forall|k: Seq<char>| #[trigger] first_index(tx, k) is Some implies lookup(ty, k)
        == lookup(tx, k) by {
        lemma_first_index_found(tx, k);
        let j = first_index(tx, k)->Some_0;
        assert(tx[j].0 == k);
    }
    true
}

/// Whether two tag sets hold the same tags.
fn same_tags(x: &Vec<(TagKey, TagValue)>, y: &Vec<(TagKey, TagValue)>) -> (r: bool)
    ensures
        r == (pairs_map(tags_view(x@)) == pairs_map(tags_view(y@))),
{
    let ghost tx = tags_view(x@);
    let ghost ty = tags_view(y@);
    let a = tags_covered(x, y);
    let b = tags_covered(y, x);
    proof {
        if a && b {
            assert forall|k: Seq<char>| #[trigger] pairs_map(tx).contains_key(k) == pairs_map(
                ty,
            ).contains_key(k) by {
                if first_index(tx, k) is Some {
                    assert(lookup(ty, k) == lookup(tx, k));
                }
                if first_index(ty, k) is Some {
                    assert(lookup(tx, k) == lookup(ty, k));
                }
            }
            assert(pairs_map(tx) =~= pairs_map(ty));
        }
        if pairs_map(tx) == pairs_map(ty) {
            assert forall|k: Seq<char>| #[trigger] first_index(tx, k) is Some implies lookup(ty, k)
                == lookup(tx, k) by {
                assert(pairs_map(tx).contains_key(k));
                assert(pairs_map(ty).contains_key(k));
                assert(pairs_map(tx)[k] == pairs_map(ty)[k]);
            }
            assert forall|k: Seq<char>| #[trigger] first_index(ty, k) is Some implies lookup(tx, k)
                == lookup(ty, k) by {
                assert(pairs_map(ty).contains_key(k));
                assert(pairs_map(tx).contains_key(k));
                assert(pairs_map(tx)[k] == pairs_map(ty)[k]);
            }
        }
    }
    a && b
}

impl LineProtocol {
    /// Whether `self` and `other` are the same point; see [`same_point`].
    pub fn same(&self, other: &LineProtocol) -> (r: bool)
        ensures
            r == same_point(self@, other@),
    {
        if self.measurement.0 != other.measurement.0 {
            return false;
        }
        let tags = match (&self.tags, &other.tags) {
            (Some(x), Some(y)) => same_tags(x, y),
            (None, None) => true,
            _ => false,
        };
        tags && self.timestamp == other.timestamp
    }
}

impl PartialEq for LineProtocol {
    fn eq(&self, other: &LineProtocol) -> (r: bool) {
        self.same(other)
    }
}

impl vstd::std_specs::cmp::PartialEqSpecImpl for LineProtocol {
    open spec fn obeys_eq_spec() -> bool {
        true
    }

    open spec fn eq_spec(&self, other: &LineProtocol) -> bool {
        same_point(self@, other@)
    }
}

impl LineProtocol {
    /// A copy of the measurement name.
    pub fn get_measurement(&self) -> (r: Measurement)
        ensures
            r@ == self@.measurement,
    {
        Measurement(self.measurement.0.clone())
    }

    /// The measurement name.
    pub fn get_measurement_ref(&self) -> (r: &Measurement)
        ensures
            r@ == self@.measurement,
    {
        &self.measurement
    }

    /// The measurement name, to change in place.
    pub fn get_measurement_mut(&mut self) -> (r: &mut Measurement)
        ensures
            *r == old(self).measurement,
            final(self).measurement == *final(r),
            final(self).tags == old(self).tags,
            final(self).fields == old(self).fields,
            final(self).timestamp == old(self).timestamp,
    {
        &mut self.measurement
    }

    /// A copy of the value of tag `key`, if the point has that tag.
    pub fn get_tag(&self, key: &str) -> (r: Option<TagValue>)
        ensures
            match lookup(tags_or_empty(self@), key@) {
                Some(v) => r is Some && r->Some_0@ == v,
                None => r is None,
            },
    {
        match self.get_tag_ref(key) {
            Some(v) => Some(TagValue(v.0.clone())),
            None => None,
        }
    }

    /// The value of tag `key`, if the point has that tag.
    pub fn get_tag_ref(&self, key: &str) -> (r: Option<&TagValue>)
        ensures
            match lookup(tags_or_empty(self@), key@) {
                Some(v) => r is Some && r->Some_0@ == v,
                None => r is None,
            },
    {
        match &self.tags {
            Some(tags) => {
                let k = key.to_owned();
                proof {
                    lemma_first_index_found(tags_view(tags@), k@);
                }
                match find_tag(tags, &k) {
                    Some(i) => {
                        assert(tags_view(tags@)[i as int] == (tags@[i as int].0@, tags@[i as int].1@));
                        Some(&tags[i].1)
                    },
                    None => None,
                }
            },
            None => None,
        }
    }

    /// A copy of the value of field `key`, if the point has that field.
    pub fn get_field(&self, key: &str) -> (r: Option<FieldValue>)
        ensures
            match lookup(self@.fields, key@) {
                Some(v) => r is Some && r->Some_0@ == v,
                None => r is None,
            },
    {
        match self.get_field_ref(key) {
            Some(v) => Some(v.duplicate()),
            None => None,
        }
    }

    /// The value of field `key`, if the point has that field.
    pub fn get_field_ref(&self, key: &str) -> (r: Option<&FieldValue>)
        ensures
            match lookup(self@.fields, key@) {
                Some(v) => r is Some && r->Some_0@ == v,
                None => r is None,
            },
    {
        let k = key.to_owned();
        proof {
            lemma_first_index_found(fields_view(self.fields@), k@);
        }
        match find_field(&self.fields, &k) {
            Some(i) => {
                assert(fields_view(self.fields@)[i as int] == (
                    self.fields@[i as int].0@,
                    self.fields@[i as int].1@,
                ));
                Some(&self.fields[i].1)
            },
            None => None,
        }
    }

    /// The timestamp.
    pub fn get_timestamp(&self) -> (r: Option<i64>)
        ensures
            r == self@.timestamp,
    {
        self.timestamp
    }

    /// The timestamp, by reference.
    pub fn get_timestamp_ref(&self) -> (r: Option<&i64>)
        ensures
            match self.timestamp {
                Some(t) => r is Some && *r->Some_0 == t,
                None => r is None,
            },
    {
        match &self.timestamp {
            Some(t) => Some(t),
            None => None,
        }
    }

    /// The timestamp, to change in place.
    pub fn get_timestamp_mut(&mut self) -> (r: Option<&mut i64>)
        ensures
            match old(self).timestamp {
                Some(t) => r is Some && *r->Some_0 == t && final(self).timestamp == Some(
                    *final(r->Some_0),
                ),
                None => r is None && final(self).timestamp is None,
            },
            final(self).measurement == old(self).measurement,
            final(self).tags == old(self).tags,
            final(self).fields == old(self).fields,
    {
        match &mut self.timestamp {
            Some(t) => Some(t),
            None => None,
        }
    }

    /// The value of field `key`, to change in place, if the point has that
    /// field.
    pub fn get_field_mut(&mut self, key: &str) -> (r: Option<&mut FieldValue>)
        ensures
            match first_index(fields_view(old(self).fields@), key@) {
                Some(i) => r is Some && *r->Some_0 == old(self).fields@[i].1 && final(self).fields@
                    == old(self).fields@.update(i, (old(self).fields@[i].0, *final(r->Some_0))),
                None => r is None && final(self).fields == old(self).fields,
            },
            final(self).measurement == old(self).measurement,
            final(self).tags == old(self).tags,
            final(self).timestamp == old(self).timestamp,
    {
        let k = key.to_owned();
        proof {
            lemma_first_index_found(fields_view(self.fields@), k@);
        }
        match find_field(&self.fields, &k) {
            Some(i) => Some(&mut self.fields[i].1),
            None => None,
        }
    }

    /// The value of tag `key`, to change in place, if the point has that tag.
    pub fn get_tag_mut(&mut self, key: &str) -> (r: Option<&mut TagValue>)
        ensures
            match old(self).tags {
                Some(tags) => match first_index(tags_view(tags@), key@) {
                    Some(i) => r is Some && *r->Some_0 == tags@[i].1 && final(self).tags is Some
                        && final(self).tags->Some_0@ == tags@.update(
                        i,
                        (tags@[i].0, *final(r->Some_0)),
                    ),
                    None => r is None && final(self).tags == old(self).tags,
                },
                None => r is None && final(self).tags is None,
            },
            final(self).measurement == old(self).measurement,
            final(self).fields == old(self).fields,
            final(self).timestamp == old(self).timestamp,
    {
        let k = key.to_owned();
        match &mut self.tags {
            Some(tags) => {
                proof {
                    lemma_first_index_found(tags_view(tags@), k@);
                }
                match find_tag(tags, &k) {
                    Some(i) => Some(&mut tags[i].1),
                    None => None,
                }
            },
            None => None,
        }
    }
}

/// The tags of a point, with no tag set read as an empty one.
pub open spec fn tags_or_empty(p: LineView) -> Seq<(Seq<char>, Seq<char>)> {
    match p.tags {
        Some(t) => t,
        None => seq![],
    }
}

/// Whether no key occurs twice in `s`.
pub open spec fn unique_keys<V>(s: Seq<(Seq<char>, V)>) -> bool {
    forall|a: int, b: int| 0 <= a < b < s.len() ==> s[a].0 != s[b].0
}

/// Whether a point's tag set (if any) and field set each hold a key once.
pub open spec fn well_formed(p: LineView) -> bool {
    &&& p.tags is Some ==> unique_keys(p.tags->Some_0)
    &&& unique_keys(p.fields)
}

/// Setting a key keeps keys unique.
pub proof fn lemma_put_unique<V>(s: Seq<(Seq<char>, V)>, k: Seq<char>, v: V)
    requires
        unique_keys(s),
    ensures
        unique_keys(put(s, k, v)),
{
    lemma_first_index_found(s, k);
}

/// Taking a key out keeps keys unique.
pub proof fn lemma_without_unique<V>(s: Seq<(Seq<char>, V)>, k: Seq<char>)
    requires
        unique_keys(s),
    ensures
        unique_keys(without(s, k)),
    decreases s.len(),
{
    if s.len() > 0 {
        let s2 = s.drop_last();
        let x = s.last();
        assert(s == s2.push(x));
        lemma_without_unique(s2, k);
        s2.lemma_filter_push(x, key_is_not(k));
        if x.0 != k {
            let w = without(s2, k);
            assert forall|a: int| 0 <= a < w.len() implies (#[trigger] w[a]).0 != x.0 by {
                assert(w.contains(w[a]));
                s2.lemma_filter_contains_rev(key_is_not(k), w[a]);
                let j = choose|j: int| 0 <= j < s2.len() && s2[j] == w[a];
                assert(s[j] == s2[j]);
                assert(s[s.len() - 1] == x);
            }
        }
    }
}

} // verus!
