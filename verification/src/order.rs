//! Sequences put in the order of a text key, equal keys staying in the order in which
//! they came.

use crate::text::{
    lemma_text_le_reflexive, lemma_text_le_total, lemma_text_le_transitive, text_le,
};
use vstd::prelude::*;

verus! {

/// `s`, which is in order, with `x` put after everything whose key is no later.
pub open spec fn placed<T>(s: Seq<T>, x: T, key: spec_fn(T) -> Seq<char>) -> Seq<T>
    decreases s.len(),
{
    if s.len() == 0 || text_le(key(s.last()), key(x)) {
        s.push(x)
    } else {
        placed(s.drop_last(), x, key).push(s.last())
    }
}

/// `s` in the order of its keys.
pub open spec fn by_key<T>(s: Seq<T>, key: spec_fn(T) -> Seq<char>) -> Seq<T>
    decreases s.len(),
{
    if s.len() == 0 {
        s
    } else {
        placed(by_key(s.drop_last(), key), s.last(), key)
    }
}

/// Whether the keys of `s` are in order.
pub open spec fn in_order<T>(s: Seq<T>, key: spec_fn(T) -> Seq<char>) -> bool {
    forall|i: int, j: int| 0 <= i <= j < s.len() ==> text_le(key(#[trigger] s[i]), key(#[trigger] s[j]))
}

/// `x` is placed at `p` where all from `p` on come later and what is before `p` does not.
pub proof fn lemma_placed_at<T>(s: Seq<T>, x: T, key: spec_fn(T) -> Seq<char>, p: int)
    requires
        0 <= p <= s.len(),
        forall|i: int| p <= i < s.len() ==> !text_le(key(#[trigger] s[i]), key(x)),
        p > 0 ==> text_le(key(s[p - 1]), key(x)),
    ensures
        placed(s, x, key) == s.insert(p, x),
    decreases s.len(),
{
    if p == s.len() {
        assert(s.insert(p, x) =~= s.push(x));
    } else {
        lemma_placed_at(s.drop_last(), x, key, p);
        assert(s.insert(p, x) =~= s.drop_last().insert(p, x).push(s.last()));
    }
}

proof fn lemma_placed_in_order<T>(s: Seq<T>, x: T, key: spec_fn(T) -> Seq<char>)
    requires
        in_order(s, key),
    ensures
        in_order(placed(s, x, key), key),
        placed(s, x, key).len() == s.len() + 1,
        placed(s, x, key).last() == x || (s.len() > 0 && placed(s, x, key).last() == s.last()),
        placed(s, x, key).to_multiset() == s.to_multiset().insert(x),
    decreases s.len(),
{
    broadcast use vstd::seq_lib::group_to_multiset_ensures;

    let r = placed(s, x, key);
    lemma_text_le_reflexive(key(x));
    if s.len() == 0 || text_le(key(s.last()), key(x)) {
        assert forall|i: int, j: int| 0 <= i <= j < r.len() implies text_le(
            key(#[trigger] r[i]),
            key(#[trigger] r[j]),
        ) by {
            if i < s.len() && j == s.len() {
                assert(text_le(key(s[i]), key(s[s.len() - 1])));
                lemma_text_le_transitive(key(s[i]), key(s.last()), key(x));
            }
        }
    } else {
        let head = s.drop_last();
        assert forall|i: int, j: int| 0 <= i <= j < head.len() implies text_le(
            key(#[trigger] head[i]),
            key(#[trigger] head[j]),
        ) by {
            assert(head[i] == s[i] && head[j] == s[j]);
        }
        lemma_placed_in_order(head, x, key);
        let q = placed(head, x, key);
        lemma_text_le_total(key(s.last()), key(x));
        lemma_text_le_reflexive(key(s.last()));
        assert(text_le(key(q.last()), key(s.last()))) by {
            if head.len() > 0 {
                assert(text_le(key(s[s.len() - 2]), key(s[s.len() - 1])));
            }
        }
        assert forall|i: int, j: int| 0 <= i <= j < r.len() implies text_le(
            key(#[trigger] r[i]),
            key(#[trigger] r[j]),
        ) by {
            if j == r.len() - 1 && i < j {
                assert(r[i] == q[i]);
                assert(text_le(key(q[i]), key(q[q.len() - 1])));
                lemma_text_le_transitive(key(q[i]), key(q.last()), key(s.last()));
            } else if j < r.len() - 1 {
                assert(r[i] == q[i] && r[j] == q[j]);
            }
        }
        assert(s =~= head.push(s.last()));
        assert(s.to_multiset() =~= head.to_multiset().insert(s.last()));
        assert(r.to_multiset() =~= s.to_multiset().insert(x));
    }
}

/// Putting a sequence in order keeps its items and puts their keys in order.
pub proof fn law_by_key<T>(s: Seq<T>, key: spec_fn(T) -> Seq<char>)
    ensures
        in_order(by_key(s, key), key),
        by_key(s, key).len() == s.len(),
        by_key(s, key).to_multiset() == s.to_multiset(),
    decreases s.len(),
{
    broadcast use vstd::seq_lib::group_to_multiset_ensures;

    if s.len() > 0 {
        law_by_key(s.drop_last(), key);
        lemma_placed_in_order(by_key(s.drop_last(), key), s.last(), key);
        assert(s =~= s.drop_last().push(s.last()));
    }
}

proof fn lemma_filter_placed<T>(s: Seq<T>, x: T, key: spec_fn(T) -> Seq<char>, k: Seq<char>)
    ensures
        placed(s, x, key).filter(|y: T| key(y) == k) == s.push(x).filter(|y: T| key(y) == k),
    decreases s.len(),
{
    let same = |y: T| key(y) == k;
    if !(s.len() == 0 || text_le(key(s.last()), key(x))) {
        reveal(Seq::filter);
        let head = s.drop_last();
        lemma_filter_placed(head, x, key, k);
        lemma_text_le_reflexive(key(x));
        let q = placed(head, x, key);
        assert(placed(s, x, key).drop_last() =~= q);
        assert(head.push(x).drop_last() =~= head);
        assert(s.push(x).drop_last() =~= s);
        assert(!(same(x) && same(s.last())));
        assert(s.push(x).filter(same) == if same(x) {
            s.filter(same).push(x)
        } else {
            s.filter(same)
        });
        assert(head.push(x).filter(same) == if same(x) {
            head.filter(same).push(x)
        } else {
            head.filter(same)
        });
        assert(placed(s, x, key).filter(same) == if same(s.last()) {
            q.filter(same).push(s.last())
        } else {
            q.filter(same)
        });
    }
}

/// What has the same key stays in the order in which it came.
pub proof fn law_by_key_is_stable<T>(s: Seq<T>, key: spec_fn(T) -> Seq<char>, k: Seq<char>)
    ensures
        by_key(s, key).filter(|y: T| key(y) == k) == s.filter(|y: T| key(y) == k),
    decreases s.len(),
{
    reveal(Seq::filter);
    let same = |y: T| key(y) == k;
    if s.len() > 0 {
        let head = s.drop_last();
        law_by_key_is_stable(head, key, k);
        lemma_filter_placed(by_key(head, key), s.last(), key, k);
        assert(by_key(head, key).push(s.last()).drop_last() =~= by_key(head, key));
    }
}

} // verus!
