//! Insertion below a branch.

use crate::node::{Data, Node, MAX_ITEMS};
use crate::rect::{
    lemma_contains_trans, lemma_inner_measurable, lemma_tight_grow, lemma_tight_halves,
    lemma_tight_push, lemma_tight_single, lemma_union_contains, lemma_union_within, Rect, Span,
};
use crate::seqs::{lemma_cancel, lemma_member, lemma_member_index};
use vstd::prelude::*;
use vstd::seq_lib::to_multiset_len;

verus! {

impl<const D: usize, T> Node<D, T> {
    /// Each child of a well-formed branch can be weighed against a
    /// rectangle whose union with the branch's own is measurable.
    pub proof fn lemma_can_weigh(self, h: nat, rect: Rect<D>)
        requires
            self.wf(h),
            rect@.valid(),
            self.children().len() > 0,
            self.rect@.union(rect@).measurable(),
        ensures
            self.can_weigh(rect),
            self.rect@.measurable(),
    {
        let u = self.rect@.union(rect@);
        let kids = self.children();
        self.lemma_wf_valid(h);
        lemma_union_contains(self.rect@, rect@);
        lemma_inner_measurable(u, self.rect@);
        assert forall|i: int| 0 <= i < kids.len() implies {
            let c = #[trigger] kids[i];
            c.rect@.measurable() && c.rect@.union(rect@).measurable()
        } by {
            let c = kids[i];
            assert(Self::spans(kids)[i] == c.rect@);
            assert(self.rect@.contains(c.rect@));
            lemma_contains_trans(u, self.rect@, c.rect@);
            lemma_inner_measurable(u, c.rect@);
            lemma_union_contains(c.rect@, rect@);
            lemma_union_within(u, c.rect@, rect@);
            lemma_inner_measurable(u, c.rect@.union(rect@));
        }
    }

    /// The two halves of a split child, put in its place, keep the parent's
    /// rectangle tight.
    pub proof fn lemma_tight_after_split(
        b: Span,
        kids: Seq<Node<D, T>>,
        i: int,
        left: Node<D, T>,
        right: Node<D, T>,
    )
        requires
            0 <= i < kids.len(),
            b.shaped(D as nat),
            b.tightly_bounds(Self::spans(kids)),
            kids[i].rect@.tightly_bounds(Self::spans(kids[i].children())),
            left.rect@.tightly_bounds(Self::spans(left.children())),
            right.rect@.tightly_bounds(Self::spans(right.children())),
            left.children().to_multiset().add(right.children().to_multiset())
                == kids[i].children().to_multiset(),
            left.children().len() > 0,
            right.children().len() > 0,
        ensures
            b.tightly_bounds(Self::spans(kids.update(i, left).push(right))),
    {
        broadcast use vstd::multiset::group_multiset_axioms;

        let whole = kids[i].children();
        let lk = left.children();
        let rk = right.children();
        let under = Self::spans(whole);
        let under_l = Self::spans(lk);
        let under_r = Self::spans(rk);
        assert forall|j: int| 0 <= j < under_l.len() implies under.contains(
            #[trigger] under_l[j],
        ) by {
            lemma_member(lk, j);
            let k = lemma_member_index(whole, lk[j]);
            assert(under[k] == under_l[j]);
        }
        assert forall|j: int| 0 <= j < under_r.len() implies under.contains(
            #[trigger] under_r[j],
        ) by {
            lemma_member(rk, j);
            let k = lemma_member_index(whole, rk[j]);
            assert(under[k] == under_r[j]);
        }
        assert forall|j: int| 0 <= j < under.len() implies under_l.contains(#[trigger] under[j])
            || under_r.contains(under[j]) by {
            lemma_member(whole, j);
            if lk.to_multiset().count(whole[j]) > 0 {
                let k = lemma_member_index(lk, whole[j]);
                assert(under_l[k] == under[j]);
            } else {
                let k = lemma_member_index(rk, whole[j]);
                assert(under_r[k] == under[j]);
            }
        }
        let parts = Self::spans(kids);
        lemma_tight_halves(b, parts, i, under, left.rect@, under_l, right.rect@, under_r);
        assert(Self::spans(kids.update(i, left).push(right)) =~= parts.update(i, left.rect@).push(
            right.rect@,
        ));
    }

    /// Every child of either half of a split fits where the children of the
    /// whole did.
    pub proof fn lemma_fits_after_split(
        whole: Seq<Node<D, T>>,
        l: Seq<Node<D, T>>,
        r: Seq<Node<D, T>>,
        h: nat,
    )
        requires
            l.to_multiset().add(r.to_multiset()) == whole.to_multiset(),
            forall|i: int| 0 <= i < whole.len() ==> (#[trigger] whole[i]).fits_under(h),
        ensures
            forall|i: int| 0 <= i < l.len() ==> (#[trigger] l[i]).fits_under(h),
            forall|i: int| 0 <= i < r.len() ==> (#[trigger] r[i]).fits_under(h),
    {
        broadcast use vstd::multiset::group_multiset_axioms;

        assert forall|i: int| 0 <= i < l.len() implies (#[trigger] l[i]).fits_under(h) by {
            lemma_member(l, i);
            let k = lemma_member_index(whole, l[i]);
        }
        assert forall|i: int| 0 <= i < r.len() implies (#[trigger] r[i]).fits_under(h) by {
            lemma_member(r, i);
            let k = lemma_member_index(whole, r[i]);
        }
    }

    /// Of the children `before`, only child `j` has changed to give `after`.
    /// The insertion below it has made it `c1`. Where `c1` has reached
    /// `MAX_ITEMS` children it was split: its first half stands where the
    /// child stood, and its second half has been appended. Otherwise `c1`
    /// stands where the child stood.
    pub open spec fn went_into(
        before: Seq<Node<D, T>>,
        after: Seq<Node<D, T>>,
        j: int,
        c1: Node<D, T>,
    ) -> bool {
        &&& 0 <= j < before.len()
        &&& if c1.children().len() == MAX_ITEMS {
            &&& after.len() == before.len() + 1
            &&& after == before.update(j, after[j]).push(after.last())
            &&& Self::split_of(c1, after[j], after.last())
        } else {
            after == before.update(j, c1)
        }
    }

    /// `post` is what storing the entry `(rect, data)` under the branch
    /// `pre`, `h` levels above the leaves, leaves. The rectangle has grown to
    /// hold `rect`. At the leaves the entry has been appended as a leaf.
    /// Above them it went into the child that `chosen_at` names, as
    /// `went_into` says, and under that child the same holds one level
    /// lower.
    pub open spec fn inserted(
        pre: Node<D, T>,
        post: Node<D, T>,
        h: nat,
        rect: Rect<D>,
        data: T,
    ) -> bool
        decreases h,
    {
        &&& post.is_branch()
        &&& post.rect@ == pre.rect@.union(rect@)
        &&& if h == 0 {
            post.children() == pre.children().push(Node { rect: rect, data: Data::Item(data) })
        } else {
            exists|j: int, c1: Node<D, T>|
                {
                    &&& Self::chosen_at(pre.children(), rect@, j)
                    &&& #[trigger] Self::went_into(pre.children(), post.children(), j, c1)
                    &&& Self::inserted(pre.children()[j], c1, (h - 1) as nat, rect, data)
                }
        }
    }

    /// Stores the entry `(rect, data)` under a branch that is `height` levels
    /// above the leaves. At the leaves the entry is appended as a new leaf.
    /// Above them it goes down into the child that `choose_subtree` names;
    /// a child that reaches `MAX_ITEMS` children is split, and the new
    /// sibling is appended. The branch's rectangle grows to hold `rect`.
    pub fn insert(&mut self, rect: Rect<D>, data: T, height: usize)
        requires
            D > 0,
            old(self).wf(height as nat),
            old(self).children().len() < MAX_ITEMS,
            rect@.valid(),
            old(self).rect@.union(rect@).measurable(),
            old(self).children().len() == 0 ==> height == 0 && old(self).rect == rect,
        ensures
            final(self).wf(height as nat),
            final(self).rect@ == old(self).rect@.union(rect@),
            final(self).bag() == old(self).bag().insert((rect, data)),
            old(self).children().len() <= final(self).children().len() <= old(
                self,
            ).children().len() + 1,
            Self::inserted(*old(self), *final(self), height as nat, rect, data),
        decreases height,
    {
        let ghost kids = self.children();
        let ghost b = self.rect@;
        let ghost h = height as nat;
        let ghost entry = (rect, data);
        if height == 0 {
            let leaf = Node { rect: rect, data: Data::Item(data) };
            proof {
                Self::lemma_bag_push(kids, leaf);
                self.lemma_bag_children();
                leaf.lemma_leaf_bag();
                assert(Self::bag_of(kids.push(leaf)) =~= Self::bag_of(kids).insert(entry)) by {
                    broadcast use vstd::multiset::group_multiset_axioms;

                }
                assert(leaf.fits_under(0));
                let parts = Self::spans(kids);
                assert(Self::spans(kids.push(leaf)) =~= parts.push(rect@));
                if kids.len() == 0 {
                    lemma_union_contains(rect@, rect@);
                    assert(rect@.contains(rect@));
                    assert(b.union(rect@) == rect@);
                    lemma_tight_single(parts.push(rect@));
                } else {
                    assert forall|j: int| 0 <= j < parts.len() implies (
                    #[trigger] parts[j]).shaped(b.dim()) by {}
                    lemma_tight_push(b, parts, rect@);
                }
            }
            self.push(leaf);
            proof {
                self.lemma_bag_children();
            }
        } else {
            proof {
                self.lemma_can_weigh(h, rect);
                self.lemma_bag_children();
            }
            let index = self.choose_subtree(&rect);
            let ghost c0 = kids[index as int];
            let ghost mut c1 = c0;
            let ghost mut split = false;
            let ghost mut left = c0;
            let ghost mut sibling = c0;
            let nodes = self.nodes_mut();
            let child = &mut nodes[index];
            proof {
                assert(c0.fits_under(h));
                assert(Self::spans(kids)[index as int] == c0.rect@);
            }
            child.insert(rect, data, height - 1);
            proof {
                c1 = *child;
            }
            if child.len() == MAX_ITEMS {
                proof {
                    lemma_union_contains(c0.rect@, rect@);
                    c1.lemma_wf_valid((h - 1) as nat);
                }
                let right = child.split_largest_axis_edge_snap();
                proof {
                    split = true;
                    left = *child;
                    sibling = right;
                }
                nodes.push(right);
            }
            proof {
                let parts = Self::spans(kids);
                assert forall|j: int| 0 <= j < parts.len() implies (#[trigger] parts[j]).shaped(
                    b.dim(),
                ) by {}
                lemma_tight_grow(b, parts, index as int, rect@);
                let grown = kids.update(index as int, c1);
                assert(Self::spans(grown) =~= parts.update(
                    index as int,
                    parts[index as int].union(rect@),
                ));
                Self::lemma_bag_update(kids, index as int, c1);
                if split {
                    let l = left.children();
                    let r = sibling.children();
                    to_multiset_len(l);
                    to_multiset_len(r);
                    to_multiset_len(c1.children());
                    assert(l.to_multiset().add(r.to_multiset()).len() == l.len() + r.len()) by {
                        broadcast use vstd::multiset::group_multiset_axioms;

                    }
                    Self::lemma_fits_after_split(c1.children(), l, r, (h - 1) as nat);
                    assert(left.fits_under(h));
                    assert(sibling.fits_under(h));
                    lemma_union_contains(b, rect@);
                    Self::lemma_tight_after_split(
                        b.union(rect@),
                        grown,
                        index as int,
                        left,
                        sibling,
                    );
                    assert(grown.update(index as int, left) =~= kids.update(index as int, left));
                    Self::lemma_bag_parts(l, r, c1.children());
                    left.lemma_bag_children();
                    sibling.lemma_bag_children();
                    c1.lemma_bag_children();
                    Self::lemma_bag_update(kids, index as int, left);
                    Self::lemma_bag_push(kids.update(index as int, left), sibling);
                    let m = Self::bag_of(kids.update(index as int, left).push(sibling));
                    let a = Self::bag_of(kids.update(index as int, left));
                    assert(m == a.add(sibling.bag()));
                    assert(a.add(c0.bag()) == Self::bag_of(kids).add(left.bag()));
                    assert(left.bag().add(sibling.bag()) == c1.bag());
                    assert(c1.bag() == c0.bag().insert(entry));
                    assert(m.add(c0.bag()) =~= Self::bag_of(kids).insert(entry).add(c0.bag())) by {
                        broadcast use vstd::multiset::group_multiset_axioms;

                        assert forall|v: (Rect<D>, T)|
                            m.add(c0.bag()).count(v) == Self::bag_of(kids).insert(entry).add(
                                c0.bag(),
                            ).count(v) by {
                            assert(a.add(c0.bag()).count(v) == Self::bag_of(kids).add(
                                left.bag(),
                            ).count(v));
                            assert(left.bag().add(sibling.bag()).count(v) == c0.bag().insert(
                                entry,
                            ).count(v));
                        }
                    }
                    lemma_cancel(m, Self::bag_of(kids).insert(entry), c0.bag());
                    assert(Self::went_into(
                        kids,
                        kids.update(index as int, left).push(sibling),
                        index as int,
                        c1,
                    ));
                } else {
                    assert(Self::went_into(kids, grown, index as int, c1));
                    assert(c1.fits_under(h));
                    let m = Self::bag_of(grown);
                    assert(m.add(c0.bag()) =~= Self::bag_of(kids).insert(entry).add(c0.bag())) by {
                        broadcast use vstd::multiset::group_multiset_axioms;

                    }
                    lemma_cancel(m, Self::bag_of(kids).insert(entry), c0.bag());
                }
            }
        }
        if !self.rect.contains(&rect) {
            self.rect.expand(&rect);
        } else {
            proof {
                lemma_union_contains(b, rect@);
            }
        }
        proof {
            self.lemma_bag_children();
        }
    }
}

} // verus!
