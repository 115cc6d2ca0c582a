//! The order of texts: lexicographic by character, as `String`'s own order is
//! (UTF-8 keeps the order of the characters it encodes), and sorting by it.

use vstd::prelude::*;
use vstd::relations::{sorted_by, total_ordering};
use vstd::seq_lib::lemma_sorted_unique;

verus! {

/// Whether `a` comes before `b` or equals it, character by character.
pub open spec fn text_le(a: Seq<char>, b: Seq<char>) -> bool
    decreases a.len(),
{
    if a.len() == 0 {
        true
    } else if b.len() == 0 {
        false
    } else if a[0] != b[0] {
        a[0] < b[0]
    } else {
        text_le(a.drop_first(), b.drop_first())
    }
}

/// [`text_le`] as a relation.
pub open spec fn text_order() -> spec_fn(Seq<char>, Seq<char>) -> bool {
    |a: Seq<char>, b: Seq<char>| text_le(a, b)
}

/// `texts` in the order of [`text_le`].
pub open spec fn sorted_texts(texts: Seq<Seq<char>>) -> Seq<Seq<char>> {
    texts.sort_by(text_order())
}

proof fn lemma_text_le_reflexive(a: Seq<char>)
    ensures
        text_le(a, a),
    decreases a.len(),
{
    if a.len() > 0 {
        lemma_text_le_reflexive(a.drop_first());
    }
}

proof fn lemma_text_le_antisymmetric(a: Seq<char>, b: Seq<char>)
    requires
        text_le(a, b),
        text_le(b, a),
    ensures
        a == b,
    decreases a.len(),
{
    if a.len() > 0 && b.len() > 0 {
        lemma_text_le_antisymmetric(a.drop_first(), b.drop_first());
        assert(a == seq![a[0]] + a.drop_first());
        assert(b == seq![b[0]] + b.drop_first());
    }
}

proof fn lemma_text_le_transitive(a: Seq<char>, b: Seq<char>, c: Seq<char>)
    requires
        text_le(a, b),
        text_le(b, c),
    ensures
        text_le(a, c),
    decreases a.len(),
{
    if a.len() > 0 && b.len() > 0 && c.len() > 0 {
        if a[0] == b[0] && b[0] == c[0] {
            lemma_text_le_transitive(a.drop_first(), b.drop_first(), c.drop_first());
        }
    }
}

proof fn lemma_text_le_total(a: Seq<char>, b: Seq<char>)
    ensures
        text_le(a, b) || text_le(b, a),
    decreases a.len(),
{
    if a.len() > 0 && b.len() > 0 {
        if a[0] == b[0] {
            lemma_text_le_total(a.drop_first(), b.drop_first());
        }
    }
}

/// [`text_le`] is a total order.
pub proof fn lemma_text_order_total()
    ensures
        total_ordering(text_order()),
{
    assert forall|a: Seq<char>| #[trigger] text_order()(a, a) by {
        lemma_text_le_reflexive(a);
    }
    assert forall|a: Seq<char>, b: Seq<char>|
        #[trigger] text_order()(a, b) && #[trigger] text_order()(b, a) implies a == b by {
        lemma_text_le_antisymmetric(a, b);
    }
    assert forall|a: Seq<char>, b: Seq<char>, c: Seq<char>|
        #[trigger] text_order()(a, b) && #[trigger] text_order()(b, c) implies text_order()(
        a,
        c,
    ) by {
        lemma_text_le_transitive(a, b, c);
    }
    assert forall|a: Seq<char>, b: Seq<char>|
        #[trigger] text_order()(a, b) || #[trigger] text_order()(b, a) by {
        lemma_text_le_total(a, b);
    }
}

/// Whether `a` comes before `b` or equals it.
pub fn text_le_exec(a: &Vec<char>, b: &Vec<char>) -> (r: bool)
    ensures
        r == text_le(a@, b@),
{
    let mut i: usize = 0;
    assert(a@.skip(0) == a@ && b@.skip(0) == b@);
    loop
        invariant
            i <= a@.len(),
            i <= b@.len(),
            text_le(a@, b@) == text_le(a@.skip(i as int), b@.skip(i as int)),
        decreases a@.len() - i,
    {
        if i == a.len() {
            return true;
        }
        if i == b.len() {
            return false;
        }
        if a[i] != b[i] {
            return a[i] < b[i];
        }
        assert(a@.skip(i as int).drop_first() == a@.skip(i + 1));
        assert(b@.skip(i as int).drop_first() == b@.skip(i + 1));
        i = i + 1;
    }
}

/// The texts that the vectors of `v` hold.
pub open spec fn texts_of(v: Seq<Vec<char>>) -> Seq<Seq<char>> {
    v.map_values(|x: Vec<char>| x@)
}

/// Sorts texts by [`text_le`].
pub fn sort_texts(v: Vec<Vec<char>>) -> (r: Vec<Vec<char>>)
    ensures
        texts_of(r@) == sorted_texts(texts_of(v@)),
{
    broadcast use vstd::seq_lib::group_to_multiset_ensures;
    broadcast use vstd::multiset::group_multiset_axioms;

    proof {
        lemma_text_order_total();
    }
    let ghost leq = text_order();
    let mut out: Vec<Vec<char>> = Vec::new();
    let mut i: usize = 0;
    while i < v.len()
        invariant
            i <= v@.len(),
            leq == text_order(),
            total_ordering(leq),
            sorted_by(texts_of(out@), leq),
            texts_of(out@).to_multiset() == texts_of(v@.take(i as int)).to_multiset(),
        decreases v@.len() - i,
    {
        let x = v[i].clone();
        assert(x@ =~= v@[i as int]@);
        let mut p: usize = 0;
        while p < out.len() && text_le_exec(&out[p], &x)
            invariant
                p <= out@.len(),
                i < v@.len(),
                x@ == v@[i as int]@,
                sorted_by(texts_of(out@), leq),
                texts_of(out@).to_multiset() == texts_of(v@.take(i as int)).to_multiset(),
                forall|k: int| 0 <= k < p ==> text_le(#[trigger] out@[k]@, x@),
            decreases out@.len() - p,
        {
            p = p + 1;
        }
        let ghost old_texts = texts_of(out@);
        out.insert(p, x);
        proof {
            let t = texts_of(out@);
            assert(t == old_texts.insert(p as int, x@));
            assert forall|a: int, b: int| 0 <= a < b < t.len() implies #[trigger] leq(t[a], t[b]) by {
                if b < p {
                    assert(leq(old_texts[a], old_texts[b]));
                } else if b == p {
                    assert(text_le(old_texts[a], x@));
                } else if a == p {
                    assert(!text_le(old_texts[p as int], x@));
                    lemma_text_le_total(old_texts[p as int], x@);
                    if b - 1 > p {
                        assert(leq(old_texts[p as int], old_texts[b - 1]));
                        lemma_text_le_transitive(x@, old_texts[p as int], old_texts[b - 1]);
                    }
                } else if a < p {
                    assert(text_le(old_texts[a], x@));
                    assert(leq(old_texts[a], old_texts[b - 1]));
                } else {
                    assert(leq(old_texts[a - 1], old_texts[b - 1]));
                }
            }
            assert(t.remove(p as int) == old_texts);
            assert(t[p as int] == x@);
            t.to_multiset_ensures();
            old_texts.to_multiset_ensures();
            assert(t.contains(x@));
            assert(t.to_multiset().count(x@) > 0);
            assert(t.to_multiset() =~= old_texts.to_multiset().insert(x@));
            assert(v@.take(i + 1) == v@.take(i as int).push(v@[i as int]));
            assert(texts_of(v@.take(i + 1)) == texts_of(v@.take(i as int)).push(x@));
            texts_of(v@.take(i as int)).to_multiset_ensures();
            assert(texts_of(v@.take(i + 1)).to_multiset() =~= texts_of(v@.take(i as int)).to_multiset().insert(x@));
        }
        i = i + 1;
    }
    proof {
        assert(v@.take(i as int) == v@);
        texts_of(v@).lemma_sort_by_ensures(leq);
        lemma_sorted_unique(texts_of(out@), sorted_texts(texts_of(v@)), leq);
    }
    out
}

} // verus!
