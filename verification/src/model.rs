//! Facts about the model of a node: the entries it stores, with and without
//! their order, and the rectangles of well-formed nodes.

use crate::node::{Data, Node};
use crate::rect::{lemma_contains_trans, lemma_tight_valid, lemma_union_contains, Rect, Span};
use crate::seqs::{lemma_drop_last_bag, lemma_member, lemma_member_index};
use vstd::multiset::Multiset;
use vstd::prelude::*;
use vstd::seq_lib::{lemma_multiset_commutative, to_multiset_len, to_multiset_remove};

verus! {

impl<const D: usize, T> Node<D, T> {
    /// The entries under a sequence of nodes, taken without order, are the
    /// sum of what each node stores.
    pub proof fn lemma_bag_entries(s: Seq<Node<D, T>>)
        ensures
            Self::entries_of(s).to_multiset() == Self::bag_of(s),
        decreases s.len(),
    {
        broadcast use vstd::multiset::group_multiset_axioms;

        if s.len() == 0 {
            to_multiset_len(Self::entries_of(s));
            assert(Self::entries_of(s).to_multiset() =~= Multiset::empty());
        } else {
            Self::lemma_bag_entries(s.drop_last());
            lemma_multiset_commutative(Self::entries_of(s.drop_last()), s.last().entries());
        }
    }

    /// A leaf stores its own entry and nothing else.
    pub proof fn lemma_leaf_bag(self)
        requires
            self.is_item(),
        ensures
            self.entries() == seq![(self.rect, self.payload())],
            self.bag() == Multiset::<(Rect<D>, T)>::empty().insert((self.rect, self.payload())),
            self.bag().count((self.rect, self.payload())) == 1,
    {
        broadcast use vstd::multiset::group_multiset_axioms;

        let e = (self.rect, self.payload());
        let none = Seq::<(Rect<D>, T)>::empty();
        assert(self.entries() =~= seq![e]);
        assert(none.push(e) =~= seq![e]);
        vstd::seq_lib::to_multiset_build(none, e);
        to_multiset_len(none);
        assert(none.to_multiset() =~= Multiset::empty());
    }

    /// What a branch stores, without order, is the sum over its children.
    pub proof fn lemma_bag_children(self)
        requires
            self.is_branch(),
        ensures
            self.bag() == Self::bag_of(self.children()),
    {
        Self::lemma_bag_entries(self.children());
    }

    /// One more node adds what it stores.
    pub proof fn lemma_bag_push(s: Seq<Node<D, T>>, x: Node<D, T>)
        ensures
            Self::bag_of(s.push(x)) == Self::bag_of(s).add(x.bag()),
            Self::entries_of(s.push(x)) == Self::entries_of(s) + x.entries(),
    {
        assert(s.push(x).drop_last() =~= s);
    }

    /// The entries under two runs of nodes, one after the other.
    pub proof fn lemma_entries_concat(a: Seq<Node<D, T>>, b: Seq<Node<D, T>>)
        ensures
            Self::entries_of(a + b) == Self::entries_of(a) + Self::entries_of(b),
            Self::bag_of(a + b) == Self::bag_of(a).add(Self::bag_of(b)),
        decreases b.len(),
    {
        broadcast use vstd::multiset::group_multiset_axioms;

        if b.len() == 0 {
            assert(a + b =~= a);
            assert(Self::entries_of(a) + Self::entries_of(b) =~= Self::entries_of(a));
            assert(Self::bag_of(a).add(Self::bag_of(b)) =~= Self::bag_of(a));
        } else {
            Self::lemma_entries_concat(a, b.drop_last());
            assert((a + b).drop_last() =~= a + b.drop_last());
            assert((a + b).last() == b.last());
            assert(Self::entries_of(a + b) =~= Self::entries_of(a) + Self::entries_of(b));
            assert(Self::bag_of(a + b) =~= Self::bag_of(a).add(Self::bag_of(b)));
        }
    }

    /// Taking a node out takes out what it stores.
    pub proof fn lemma_bag_remove(s: Seq<Node<D, T>>, i: int)
        requires
            0 <= i < s.len(),
        ensures
            Self::bag_of(s.remove(i)).add(s[i].bag()) == Self::bag_of(s),
        decreases s.len(),
    {
        broadcast use vstd::multiset::group_multiset_axioms;

        if i == s.len() - 1 {
            assert(s.remove(i) =~= s.drop_last());
        } else {
            Self::lemma_bag_remove(s.drop_last(), i);
            assert(s.remove(i).drop_last() =~= s.drop_last().remove(i));
            assert(s.remove(i).last() == s.last());
            assert(Self::bag_of(s.remove(i)).add(s[i].bag()) =~= Self::bag_of(s));
        }
    }

    /// Replacing a node replaces what it stores.
    pub proof fn lemma_bag_update(s: Seq<Node<D, T>>, i: int, x: Node<D, T>)
        requires
            0 <= i < s.len(),
        ensures
            Self::bag_of(s.update(i, x)).add(s[i].bag()) == Self::bag_of(s).add(x.bag()),
        decreases s.len(),
    {
        broadcast use vstd::multiset::group_multiset_axioms;

        let u = s.update(i, x);
        let d = s.drop_last();
        assert(Self::bag_of(u) == Self::bag_of(u.drop_last()).add(u.last().bag()));
        assert(Self::bag_of(s) == Self::bag_of(d).add(s.last().bag()));
        if i == s.len() - 1 {
            assert(u.drop_last() =~= d);
            assert(u.last() == x);
            assert(Self::bag_of(u).add(s[i].bag()) =~= Self::bag_of(s).add(x.bag()));
        } else {
            Self::lemma_bag_update(d, i, x);
            assert(u.drop_last() =~= d.update(i, x));
            assert(u.last() == s.last());
            assert(d[i] == s[i]);
            let m = Self::bag_of(d.update(i, x));
            assert(m.add(s[i].bag()) == Self::bag_of(d).add(x.bag()));
            assert(Self::bag_of(u).add(s[i].bag()) =~= m.add(s[i].bag()).add(s.last().bag()));
            assert(Self::bag_of(u).add(s[i].bag()) =~= Self::bag_of(s).add(x.bag()));
        }
    }

    /// Moving the last node into place `i` and dropping the last place takes
    /// out what the node at `i` stored.
    pub proof fn lemma_bag_swap_remove(s: Seq<Node<D, T>>, i: int)
        requires
            0 <= i < s.len(),
        ensures
            Self::bag_of(s.update(i, s.last()).drop_last()).add(s[i].bag()) == Self::bag_of(s),
    {
        broadcast use vstd::multiset::group_multiset_axioms;

        let t = s.update(i, s.last());
        assert(Self::bag_of(t) == Self::bag_of(t.drop_last()).add(t.last().bag()));
        assert(Self::bag_of(s) == Self::bag_of(s.drop_last()).add(s.last().bag()));
        if i == s.len() - 1 {
            assert(t =~= s);
            assert(Self::bag_of(t.drop_last()).add(s[i].bag()) =~= Self::bag_of(s));
        } else {
            Self::lemma_bag_update(s, i, s.last());
            assert(t.last() == s.last());
            let m = Self::bag_of(t.drop_last());
            assert(m.add(s.last().bag()).add(s[i].bag()) == Self::bag_of(s).add(s.last().bag()));
            let whole = m.add(s.last().bag()).add(s[i].bag());
            assert forall|v: (Rect<D>, T)| m.add(s[i].bag()).count(v) == Self::bag_of(s).count(
                v,
            ) by {
                assert(whole.count(v) == Self::bag_of(s).add(s.last().bag()).count(v));
            }
            assert(m.add(s[i].bag()) =~= Self::bag_of(s));
        }
    }

    /// What nodes store together does not depend on their order.
    pub proof fn lemma_bag_permuted(s: Seq<Node<D, T>>, t: Seq<Node<D, T>>)
        requires
            s.to_multiset() == t.to_multiset(),
        ensures
            Self::bag_of(s) == Self::bag_of(t),
        decreases s.len(),
    {
        broadcast use vstd::multiset::group_multiset_axioms;

        to_multiset_len(s);
        to_multiset_len(t);
        if s.len() == 0 {
            assert(t =~= Seq::empty());
            assert(s =~= Seq::empty());
        } else {
            let x = s.last();
            lemma_member(s, s.len() - 1);
            let k = lemma_member_index(t, x);
            lemma_drop_last_bag(s);
            to_multiset_remove(t, k);
            Self::lemma_bag_permuted(s.drop_last(), t.remove(k));
            Self::lemma_bag_remove(t, k);
        }
    }

    /// The two halves of a split store together what the whole stored.
    pub proof fn lemma_bag_parts(l: Seq<Node<D, T>>, r: Seq<Node<D, T>>, whole: Seq<Node<D, T>>)
        requires
            l.to_multiset().add(r.to_multiset()) == whole.to_multiset(),
        ensures
            Self::bag_of(l).add(Self::bag_of(r)) == Self::bag_of(whole),
    {
        lemma_multiset_commutative(l, r);
        Self::lemma_entries_concat(l, r);
        Self::lemma_bag_permuted(l + r, whole);
    }

    /// The rectangles of the children of a well-formed branch are valid, and
    /// so is its own where it has children.
    pub proof fn lemma_wf_valid(self, h: nat)
        requires
            self.wf(h),
        ensures
            forall|i: int|
                0 <= i < self.children().len() ==> (#[trigger] self.children()[i]).rect@.valid(),
            self.children().len() > 0 ==> self.rect@.valid(),
        decreases h, self.children().len(),
    {
        let kids = self.children();
        assert forall|i: int| 0 <= i < kids.len() implies (#[trigger] kids[i]).rect@.valid() by {
            if h > 0 {
                assert(kids[i].fits_under(h));
                kids[i].lemma_wf_valid((h - 1) as nat);
            } else {
                assert(kids[i].fits_under(h));
            }
        }
        if kids.len() > 0 {
            let parts = Self::spans(kids);
            assert forall|j: int| 0 <= j < parts.len() implies (#[trigger] parts[j]).valid()
                && parts[j].shaped(self.rect@.dim()) by {
                assert(kids[j].rect@.valid());
            }
            lemma_tight_valid(self.rect@, parts);
        }
    }

    /// Every entry of `es` has a valid rectangle that lies in `b`.
    pub open spec fn all_within(es: Seq<(Rect<D>, T)>, b: Span) -> bool {
        forall|k: int|
            0 <= k < es.len() ==> b.contains((#[trigger] es[k]).0@) && es[k].0@.valid()
    }

    /// What a node hands out when it is dissolved is what it stores.
    pub proof fn lemma_drained_bag(self)
        ensures
            self.drained().to_multiset() == self.bag(),
        decreases self,
    {
        match self.data {
            Data::Item(t) => {},
            Data::Nodes(v) => {
                Self::lemma_drained_of_bag(v@);
                Self::lemma_bag_entries(v@);
            },
        }
    }

    /// What nodes hand out when they are dissolved is what they store.
    pub proof fn lemma_drained_of_bag(s: Seq<Node<D, T>>)
        ensures
            Self::drained_of(s).to_multiset() == Self::bag_of(s),
        decreases s,
    {
        broadcast use vstd::multiset::group_multiset_axioms;

        if s.len() == 0 {
            to_multiset_len(Self::drained_of(s));
            assert(Self::drained_of(s).to_multiset() =~= Multiset::empty());
        } else {
            Self::lemma_drained_of_bag(s.drop_last());
            s.last().lemma_drained_bag();
            lemma_multiset_commutative(s.last().drained(), Self::drained_of(s.drop_last()));
            assert(Self::drained_of(s).to_multiset() =~= Self::bag_of(s));
        }
    }

    /// The entries under a run of nodes are those before node `i`, those of
    /// node `i`, and those after it.
    pub proof fn lemma_entries_split(s: Seq<Node<D, T>>, i: int)
        requires
            0 <= i < s.len(),
        ensures
            Self::entries_of(s) == Self::entries_of(s.take(i)) + s[i].entries() + Self::entries_of(
                s.skip(i + 1),
            ),
            Self::entries_of(s.take(i + 1)) == Self::entries_of(s.take(i)) + s[i].entries(),
    {
        assert(s =~= s.take(i + 1) + s.skip(i + 1));
        Self::lemma_entries_concat(s.take(i + 1), s.skip(i + 1));
        assert(s.take(i + 1) =~= s.take(i).push(s[i]));
        Self::lemma_bag_push(s.take(i), s[i]);
    }

    /// The entries under a node that fits under a branch have valid
    /// rectangles inside the node's own.
    pub proof fn lemma_fits_within(self, h: nat)
        requires
            self.fits_under(h),
        ensures
            Self::all_within(self.entries(), self.rect@),
        decreases h, 0nat, 0nat,
    {
        if h == 0 {
            lemma_union_contains(self.rect@, self.rect@);
            assert(self.rect@.contains(self.rect@));
        } else {
            self.lemma_wf_within((h - 1) as nat);
        }
    }

    /// The entries under a well-formed branch have valid rectangles inside
    /// the branch's own.
    pub proof fn lemma_wf_within(self, h: nat)
        requires
            self.wf(h),
        ensures
            Self::all_within(self.entries(), self.rect@),
        decreases h, 2nat, 0nat,
    {
        let kids = self.children();
        if kids.len() > 0 {
            assert forall|i: int| 0 <= i < kids.len() implies self.rect@.contains(
                (#[trigger] kids[i]).rect@,
            ) by {
                assert(Self::spans(kids)[i] == kids[i].rect@);
            }
            Self::lemma_entries_of_within(kids, h, self.rect@);
        }
    }

    /// The entries under nodes that fit under a branch and lie in `b` have
    /// valid rectangles inside `b`.
    pub proof fn lemma_entries_of_within(s: Seq<Node<D, T>>, h: nat, b: Span)
        requires
            b.shaped(D as nat),
            forall|i: int| 0 <= i < s.len() ==> (#[trigger] s[i]).fits_under(h),
            forall|i: int| 0 <= i < s.len() ==> b.contains((#[trigger] s[i]).rect@),
        ensures
            Self::all_within(Self::entries_of(s), b),
        decreases h, 1nat, s.len(),
    {
        if s.len() > 0 {
            let d = s.drop_last();
            assert forall|i: int| 0 <= i < d.len() implies (#[trigger] d[i]).fits_under(h) by {
                assert(d[i] == s[i]);
            }
            assert forall|i: int| 0 <= i < d.len() implies b.contains((#[trigger] d[i]).rect@) by {
                assert(d[i] == s[i]);
            }
            Self::lemma_entries_of_within(d, h, b);
            let x = s.last();
            assert(x == s[s.len() - 1]);
            x.lemma_fits_within(h);
            let es = Self::entries_of(s);
            let ed = Self::entries_of(d);
            assert forall|k: int| 0 <= k < es.len() implies b.contains((#[trigger] es[k]).0@)
                && es[k].0@.valid() by {
                if k < ed.len() {
                    assert(es[k] == ed[k]);
                } else {
                    let e = x.entries()[k - ed.len()];
                    assert(es[k] == e);
                    assert(x.rect@.contains(e.0@));
                    lemma_contains_trans(b, x.rect@, e.0@);
                }
            }
        }
    }

    /// A node that fits under a branch `h` levels above the leaves stores at
    /// least `h + 1` entries.
    pub proof fn lemma_fits_count(self, h: nat)
        requires
            self.fits_under(h),
        ensures
            self.entries().len() >= h + 1,
        decreases h,
    {
        if h == 0 {
            assert(self.entries() =~= seq![(self.rect, self.payload())]);
        } else {
            let kids = self.children();
            let n = kids.len() as int;
            let d = kids.drop_last();
            assert(kids[n - 1].fits_under((h - 1) as nat));
            assert(kids[n - 2].fits_under((h - 1) as nat));
            kids[n - 1].lemma_fits_count((h - 1) as nat);
            kids[n - 2].lemma_fits_count((h - 1) as nat);
            assert(d[n - 2] == kids[n - 2]);
            assert(Self::entries_of(kids) == Self::entries_of(d) + kids[n - 1].entries());
            assert(Self::entries_of(d) == Self::entries_of(d.drop_last()) + d[n - 2].entries());
        }
    }

    /// A well-formed branch `h` levels above the leaves that has a child
    /// stores at least `h + 1` entries.
    pub proof fn lemma_wf_count(self, h: nat)
        requires
            self.wf(h),
            self.children().len() >= 1,
        ensures
            self.entries().len() >= h + 1,
    {
        let kids = self.children();
        let n = kids.len() as int;
        assert(kids[n - 1].fits_under(h));
        kids[n - 1].lemma_fits_count(h);
        assert(Self::entries_of(kids) == Self::entries_of(kids.drop_last()) + kids[n
            - 1].entries());
    }

    /// A run of leaves stores as many entries as it has leaves.
    pub proof fn lemma_leaves_count(s: Seq<Node<D, T>>)
        requires
            forall|i: int| 0 <= i < s.len() ==> (#[trigger] s[i]).fits_under(0),
        ensures
            Self::entries_of(s).len() == s.len(),
        decreases s.len(),
    {
        if s.len() > 0 {
            let d = s.drop_last();
            assert forall|i: int| 0 <= i < d.len() implies (#[trigger] d[i]).fits_under(0) by {
                assert(d[i] == s[i]);
            }
            Self::lemma_leaves_count(d);
            let x = s[s.len() - 1];
            assert(x.fits_under(0));
            assert(x.entries() =~= seq![(x.rect, x.payload())]);
        }
    }
}

} // verus!
