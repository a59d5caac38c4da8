//! Facts about sequences and the multisets of their elements.

use vstd::multiset::Multiset;
use vstd::prelude::*;
use vstd::seq_lib::{
    to_multiset_build, to_multiset_contains, to_multiset_remove, to_multiset_update,
};

verus! {

/// Every element of a sequence occurs in its multiset.
pub proof fn lemma_member<A>(s: Seq<A>, i: int)
    requires
        0 <= i < s.len(),
    ensures
        s.to_multiset().count(s[i]) > 0,
{
    to_multiset_contains(s, s[i]);
    assert(s.contains(s[i]));
}

/// What occurs in the multiset of a sequence stands at some index of it.
pub proof fn lemma_member_index<A>(s: Seq<A>, a: A) -> (i: int)
    requires
        s.to_multiset().count(a) > 0,
    ensures
        0 <= i < s.len(),
        s[i] == a,
{
    to_multiset_contains(s, a);
    assert(s.contains(a));
    choose|i: int| 0 <= i < s.len() && s[i] == a
}

/// Dropping the last element takes it out of the multiset.
pub proof fn lemma_drop_last_bag<A>(s: Seq<A>)
    requires
        s.len() > 0,
    ensures
        s.drop_last().to_multiset() == s.to_multiset().remove(s.last()),
        s.to_multiset() == s.drop_last().to_multiset().insert(s.last()),
{
    assert(s.drop_last() =~= s.remove(s.len() - 1));
    to_multiset_remove(s, s.len() - 1);
    assert(s =~= s.drop_last().push(s.last()));
    to_multiset_build(s.drop_last(), s.last());
}

/// Moving the last element into place `i` and dropping the last place takes
/// the element that stood at `i` out of the multiset.
pub proof fn lemma_swap_remove_bag<A>(s: Seq<A>, i: int)
    requires
        0 <= i < s.len(),
    ensures
        s.update(i, s.last()).drop_last().to_multiset() == s.to_multiset().remove(s[i]),
{
    let t = s.update(i, s.last()).drop_last();
    if i == s.len() - 1 {
        assert(t =~= s.drop_last());
        lemma_drop_last_bag(s);
    } else {
        let d = s.drop_last();
        assert(t =~= d.update(i, s.last()));
        to_multiset_update(d, i, s.last());
        lemma_drop_last_bag(s);
        assert(d[i] == s[i]);
        assert(t.to_multiset() =~= s.to_multiset().remove(s[i]));
    }
}

/// Two sequences with the same multiset have the same elements.
pub proof fn lemma_same_members<A>(s: Seq<A>, t: Seq<A>)
    requires
        s.to_multiset() == t.to_multiset(),
    ensures
        s.len() == t.len(),
        forall|i: int| 0 <= i < s.len() ==> t.contains(#[trigger] s[i]),
        forall|i: int| 0 <= i < t.len() ==> s.contains(#[trigger] t[i]),
{
    vstd::seq_lib::to_multiset_len(s);
    vstd::seq_lib::to_multiset_len(t);
    assert forall|i: int| 0 <= i < s.len() implies t.contains(#[trigger] s[i]) by {
        lemma_member(s, i);
        to_multiset_contains(t, s[i]);
    }
    assert forall|i: int| 0 <= i < t.len() implies s.contains(#[trigger] t[i]) by {
        lemma_member(t, i);
        to_multiset_contains(s, t[i]);
    }
}

/// What is added to both of two multisets can be taken away again.
pub proof fn lemma_cancel<A>(a: Multiset<A>, b: Multiset<A>, c: Multiset<A>)
    requires
        a.add(c) == b.add(c),
    ensures
        a == b,
{
    broadcast use vstd::multiset::group_multiset_axioms;

    assert forall|v: A| a.count(v) == b.count(v) by {
        vstd::multiset::axiom_multiset_add(a, c, v);
        vstd::multiset::axiom_multiset_add(b, c, v);
    }
    assert(a =~= b);
}

/// Filtering a sequence of which no element passes gives nothing.
pub proof fn lemma_filter_empty<A>(s: Seq<A>, pred: spec_fn(A) -> bool)
    requires
        forall|k: int| 0 <= k < s.len() ==> !pred(#[trigger] s[k]),
    ensures
        s.filter(pred).len() == 0,
    decreases s.len(),
{
    reveal(Seq::filter);
    if s.len() > 0 {
        let d = s.drop_last();
        assert forall|k: int| 0 <= k < d.len() implies !pred(#[trigger] d[k]) by {
            assert(d[k] == s[k]);
        }
        lemma_filter_empty(d, pred);
        assert(!pred(s[s.len() - 1]));
    }
}

/// Filtering a single element keeps it if it passes.
pub proof fn lemma_filter_single<A>(e: A, pred: spec_fn(A) -> bool)
    ensures
        pred(e) ==> seq![e].filter(pred) == seq![e],
        !pred(e) ==> seq![e].filter(pred).len() == 0,
{
    reveal_with_fuel(Seq::filter, 2);
    let s = seq![e];
    assert(s.drop_last() =~= Seq::<A>::empty());
    assert(s.last() == e);
    if pred(e) {
        assert(s.filter(pred) =~= seq![e]);
    }
}

/// Where nothing of `a` passes but something of `b` does, the first of
/// `a + b + c` to pass is the first of `b` to pass.
pub proof fn lemma_filter_first<A>(a: Seq<A>, b: Seq<A>, c: Seq<A>, pred: spec_fn(A) -> bool)
    requires
        a.filter(pred).len() == 0,
        b.filter(pred).len() > 0,
    ensures
        (a + b + c).filter(pred).len() > 0,
        (a + b + c).filter(pred)[0] == b.filter(pred)[0],
{
    Seq::filter_distributes_over_add(a, b, pred);
    Seq::filter_distributes_over_add(a + b, c, pred);
    assert(a.filter(pred) + b.filter(pred) =~= b.filter(pred));
}

/// Where nothing of `a` and nothing of `b` passes, nothing of `a + b` does.
pub proof fn lemma_filter_none<A>(a: Seq<A>, b: Seq<A>, pred: spec_fn(A) -> bool)
    requires
        a.filter(pred).len() == 0,
        b.filter(pred).len() == 0,
    ensures
        (a + b).filter(pred).len() == 0,
{
    Seq::filter_distributes_over_add(a, b, pred);
}

/// Something passes the filter exactly if some element passes.
pub proof fn lemma_filter_some<A>(s: Seq<A>, pred: spec_fn(A) -> bool)
    ensures
        s.filter(pred).len() > 0 <==> exists|k: int| 0 <= k < s.len() && pred(#[trigger] s[k]),
{
    if exists|k: int| 0 <= k < s.len() && pred(#[trigger] s[k]) {
        let k = choose|k: int| 0 <= k < s.len() && pred(#[trigger] s[k]);
        s.lemma_filter_contains(pred, k);
    } else {
        lemma_filter_empty(s, pred);
    }
}

} // verus!
