//! Splitting a branch that has grown too large along its longest axis.

use crate::node::{sort_nodes, Data, Node, MIN_ITEMS};
use crate::rect::Span;
use crate::seqs::{
    lemma_drop_last_bag, lemma_member, lemma_member_index, lemma_same_members,
    lemma_swap_remove_bag,
};
use vstd::multiset::Multiset;
use vstd::prelude::*;
use vstd::seq_lib::{to_multiset_build, to_multiset_len};

verus! {

impl<const D: usize, T> Node<D, T> {
    /// Along `axis`, `c` lies no farther from the lower face of `b` than from
    /// its upper face. A child equally far from both counts as near the
    /// lower face.
    pub open spec fn near_lo(b: Span, axis: int, c: Span) -> bool {
        c.lo[axis] - b.lo[axis] <= b.hi[axis] - c.hi[axis]
    }

    /// Every node of `m` is near the lower face of `b`, or none is, as
    /// `want` says.
    pub open spec fn all_near_lo(m: Multiset<Node<D, T>>, b: Span, axis: int, want: bool) -> bool {
        forall|n: Node<D, T>| #[trigger] m.count(n) > 0 ==> Self::near_lo(b, axis, n.rect@) == want
    }

    /// `left` and `right` are what the edge-snap split of the children of a
    /// branch with the rectangle `b` gives along `axis`. Either each child
    /// stands on the side of the face it is nearer to, and on the left
    /// where it is equally far from both. Or too
    /// few were near the lower face: then `left` was filled up to
    /// `MIN_ITEMS` with the far children of least lower bound. Or too few
    /// were near the upper face: then `right` was filled up to `MIN_ITEMS`
    /// with the near children of least upper bound.
    pub open spec fn edge_snapped(
        b: Span,
        axis: int,
        left: Multiset<Node<D, T>>,
        right: Multiset<Node<D, T>>,
    ) -> bool {
        ||| {
            &&& Self::all_near_lo(left, b, axis, true)
            &&& Self::all_near_lo(right, b, axis, false)
        }
        ||| {
            &&& left.len() == MIN_ITEMS
            &&& Self::all_near_lo(right, b, axis, false)
            &&& forall|l: Node<D, T>, r: Node<D, T>|
                #[trigger] left.count(l) > 0 && #[trigger] right.count(r) > 0 && !Self::near_lo(
                    b,
                    axis,
                    l.rect@,
                ) ==> l.rect@.lo[axis] <= r.rect@.lo[axis]
        }
        ||| {
            &&& right.len() == MIN_ITEMS
            &&& Self::all_near_lo(left, b, axis, true)
            &&& forall|l: Node<D, T>, r: Node<D, T>|
                #[trigger] left.count(l) > 0 && #[trigger] right.count(r) > 0 && Self::near_lo(
                    b,
                    axis,
                    r.rect@,
                ) ==> r.rect@.hi[axis] <= l.rect@.hi[axis]
        }
    }

    /// `left` and `right` are the two halves of the branch `whole`: they
    /// share out its children, each has at least `MIN_ITEMS` of them under
    /// the rectangle that tightly bounds them, sorted by their lower bound
    /// on the first axis, and the children were dealt out by the edge-snap
    /// rule along the longest axis of the rectangle of `whole`.
    pub open spec fn split_of(whole: Node<D, T>, left: Node<D, T>, right: Node<D, T>) -> bool {
        &&& left.is_branch()
        &&& right.is_branch()
        &&& left.children().to_multiset().add(right.children().to_multiset())
            == whole.children().to_multiset()
        &&& left.children().len() >= MIN_ITEMS
        &&& right.children().len() >= MIN_ITEMS
        &&& left.children().len() + right.children().len() == whole.children().len()
        &&& left.rect@.tightly_bounds(Self::spans(left.children()))
        &&& right.rect@.tightly_bounds(Self::spans(right.children()))
        &&& Self::sorted_on(left.children(), 0, false, false)
        &&& Self::sorted_on(right.children(), 0, false, false)
        &&& exists|axis: int|
            0 <= axis < D && whole.rect@.largest_at(axis) && #[trigger] Self::edge_snapped(
                whole.rect@,
                axis,
                left.children().to_multiset(),
                right.children().to_multiset(),
            )
    }

    /// A rectangle that tightly bounds the nodes of `s` tightly bounds them
    /// in any other order.
    pub proof fn lemma_tight_permuted(b: Span, s: Seq<Node<D, T>>, t: Seq<Node<D, T>>)
        requires
            s.to_multiset() == t.to_multiset(),
            b.tightly_bounds(Self::spans(s)),
        ensures
            b.tightly_bounds(Self::spans(t)),
    {
        lemma_same_members(s, t);
        let ps = Self::spans(s);
        let pt = Self::spans(t);
        assert forall|j: int| 0 <= j < pt.len() implies b.contains(#[trigger] pt[j]) by {
            assert(s.contains(t[j]));
            let k = choose|k: int| 0 <= k < s.len() && s[k] == t[j];
            assert(ps[k] == pt[j]);
        }
        assert forall|i: int| 0 <= i < b.dim() implies #[trigger] b.meets_lo(pt, i) by {
            assert(b.meets_lo(ps, i));
            let j = choose|j: int| 0 <= j < ps.len() && (#[trigger] ps[j]).lo[i] == b.lo[i];
            assert(t.contains(s[j]));
            let k = choose|k: int| 0 <= k < t.len() && t[k] == s[j];
            assert(pt[k].lo[i] == b.lo[i]);
        }
        assert forall|i: int| 0 <= i < b.dim() implies #[trigger] b.meets_hi(pt, i) by {
            assert(b.meets_hi(ps, i));
            let j = choose|j: int| 0 <= j < ps.len() && (#[trigger] ps[j]).hi[i] == b.hi[i];
            assert(t.contains(s[j]));
            let k = choose|k: int| 0 <= k < t.len() && t[k] == s[j];
            assert(pt[k].hi[i] == b.hi[i]);
        }
    }

    /// Splits a branch along the longest axis of its rectangle. The children
    /// that are no farther from the lower face than from the upper face
    /// stay; the others go to the new sibling that is returned. A side left
    /// with fewer than `MIN_ITEMS` children is filled up from the other.
    /// Both branches then get the tight bound of their children, which are
    /// sorted by their lower bound on the first axis.
    pub fn split_largest_axis_edge_snap(&mut self) -> (right: Node<D, T>)
        requires
            D > 0,
            old(self).is_branch(),
            old(self).children().len() >= 2 * MIN_ITEMS,
            old(self).rect@.measurable(),
            old(self).rect@.tightly_bounds(Self::spans(old(self).children())),
            forall|i: int|
                0 <= i < old(self).children().len() ==> (#[trigger] old(
                    self,
                ).children()[i]).rect@.valid(),
        ensures
            Self::split_of(*old(self), *final(self), right),
    {
        let rect = self.rect;
        let ghost b = rect@;
        let ghost orig = self.children();
        assert forall|i: int| 0 <= i < D implies 0 <= #[trigger] b.extent(i) <= i64::MAX by {
            assert(b.lo[i] <= b.hi[i]);
        }
        let axis = rect.largest_axis();
        let ghost ax = axis as int;
        let mut right = Node::new(rect);
        let mut lchilds = self.take_nodes();
        let mut rchilds = right.take_nodes();
        proof {
            broadcast use vstd::multiset::group_multiset_axioms;

            to_multiset_len(rchilds@);
            assert(rchilds@.to_multiset() =~= Multiset::empty());
        }
        assert(lchilds@.to_multiset().add(rchilds@.to_multiset()) =~= orig.to_multiset());
        proof {
            to_multiset_len(orig);
        }
        let mut i: usize = 0;
        while i < lchilds.len()
            invariant
                i <= lchilds.len(),
                axis < D,
                ax == axis,
                b == rect@,
                b.measurable(),
                b.tightly_bounds(Self::spans(orig)),
                forall|k: int| 0 <= k < orig.len() ==> (#[trigger] orig[k]).rect@.valid(),
                lchilds@.to_multiset().add(rchilds@.to_multiset()) == orig.to_multiset(),
                forall|k: int| 0 <= k < i ==> Self::near_lo(b, ax, (#[trigger] lchilds@[k]).rect@),
                Self::all_near_lo(rchilds@.to_multiset(), b, ax, false),
            decreases lchilds.len() - i,
        {
            let ghost c = lchilds@[i as int];
            proof {
                lemma_member(lchilds@, i as int);
                let k = lemma_member_index(orig, c);
                assert(Self::spans(orig)[k] == c.rect@);
                assert(b.contains(c.rect@));
                assert(orig[k].rect@.valid());
                assert(c.rect@.lo[ax] <= c.rect@.hi[ax]);
                assert(b.lo[ax] <= c.rect@.lo[ax] && c.rect@.hi[ax] <= b.hi[ax]);
                assert(b.extent(ax) <= i64::MAX);
                assert(b.lo[ax] <= b.hi[ax]);
                assert(c.rect@.lo[ax] == c.rect.min[ax] as int);
                assert(c.rect@.hi[ax] == c.rect.max[ax] as int);
                assert(b.lo[ax] == rect.min[ax] as int);
                assert(b.hi[ax] == rect.max[ax] as int);
            }
            let min = lchilds[i].rect.min[axis] - rect.min[axis];
            let max = rect.max[axis] - lchilds[i].rect.max[axis];
            if min <= max {
                i += 1;
            } else {
                proof {
                    lemma_swap_remove_bag(lchilds@, i as int);
                    to_multiset_build(rchilds@, c);
                }
                let ghost old_l = lchilds@;
                let ghost old_r = rchilds@;
                let n = lchilds.swap_remove(i);
                rchilds.push(n);
                assert(lchilds@.to_multiset().add(rchilds@.to_multiset()) =~= orig.to_multiset());
                assert forall|k: int| 0 <= k < i implies Self::near_lo(
                    b,
                    ax,
                    (#[trigger] lchilds@[k]).rect@,
                ) by {
                    assert(lchilds@[k] == old_l[k]);
                }
            }
        }
        assert(Self::all_near_lo(lchilds@.to_multiset(), b, ax, true)) by {
            assert forall|n: Node<D, T>| #[trigger]
                lchilds@.to_multiset().count(n) > 0 implies Self::near_lo(b, ax, n.rect@) by {
                let k = lemma_member_index(lchilds@, n);
            }
        }
        proof {
            to_multiset_len(lchilds@);
            to_multiset_len(rchilds@);
            assert(lchilds@.to_multiset().add(rchilds@.to_multiset()).len() == lchilds@.len()
                + rchilds@.len());
        }
        if lchilds.len() < MIN_ITEMS {
            let ghost near = lchilds@.to_multiset();
            sort_nodes(&mut rchilds, axis, false, true);
            proof {
                to_multiset_len(rchilds@);
            }
            while lchilds.len() < MIN_ITEMS
                invariant
                    axis < D,
                    ax == axis,
                    lchilds@.len() <= MIN_ITEMS,
                    lchilds@.len() + rchilds@.len() == orig.len(),
                    orig.len() >= 2 * MIN_ITEMS,
                    lchilds@.to_multiset().add(rchilds@.to_multiset()) == orig.to_multiset(),
                    Self::all_near_lo(rchilds@.to_multiset(), b, ax, false),
                    Self::sorted_on(rchilds@, axis, false, true),
                    forall|l: Node<D, T>, r: Node<D, T>|
                        #[trigger] lchilds@.to_multiset().count(l) > 0 && #[trigger]
                        rchilds@.to_multiset().count(r) > 0 && !Self::near_lo(b, ax, l.rect@)
                            ==> l.rect@.lo[ax] <= r.rect@.lo[ax],
                decreases MIN_ITEMS - lchilds.len(),
            {
                let ghost old_l = lchilds@;
                let ghost old_r = rchilds@;
                proof {
                    lemma_drop_last_bag(old_r);
                    to_multiset_build(old_l, old_r.last());
                }
                let n = rchilds.pop().unwrap();
                lchilds.push(n);
                assert(rchilds@ =~= old_r.drop_last());
                assert(lchilds@.to_multiset().add(rchilds@.to_multiset()) =~= orig.to_multiset());
                assert forall|l: Node<D, T>, r: Node<D, T>|
                    #[trigger] lchilds@.to_multiset().count(l) > 0 && #[trigger]
                    rchilds@.to_multiset().count(r) > 0 && !Self::near_lo(
                        b,
                        ax,
                        l.rect@,
                    ) implies l.rect@.lo[ax] <= r.rect@.lo[ax] by {
                    assert(old_r.to_multiset().count(r) > 0);
                    if old_l.to_multiset().count(l) > 0 {
                    } else {
                        assert(l == n);
                        let k = lemma_member_index(rchilds@, r);
                        assert(old_r[k] == r);
                        assert(old_r[k].sort_key(axis, false, true) <= old_r[old_r.len()
                            - 1].sort_key(axis, false, true));
                    }
                }
            }
        } else if rchilds.len() < MIN_ITEMS {
            sort_nodes(&mut lchilds, axis, true, true);
            proof {
                to_multiset_len(lchilds@);
            }
            while rchilds.len() < MIN_ITEMS
                invariant
                    axis < D,
                    ax == axis,
                    rchilds@.len() <= MIN_ITEMS,
                    lchilds@.len() + rchilds@.len() == orig.len(),
                    orig.len() >= 2 * MIN_ITEMS,
                    lchilds@.to_multiset().add(rchilds@.to_multiset()) == orig.to_multiset(),
                    Self::all_near_lo(lchilds@.to_multiset(), b, ax, true),
                    Self::sorted_on(lchilds@, axis, true, true),
                    forall|l: Node<D, T>, r: Node<D, T>|
                        #[trigger] lchilds@.to_multiset().count(l) > 0 && #[trigger]
                        rchilds@.to_multiset().count(r) > 0 && Self::near_lo(b, ax, r.rect@)
                            ==> r.rect@.hi[ax] <= l.rect@.hi[ax],
                decreases MIN_ITEMS - rchilds.len(),
            {
                let ghost old_l = lchilds@;
                let ghost old_r = rchilds@;
                proof {
                    lemma_drop_last_bag(old_l);
                    to_multiset_build(old_r, old_l.last());
                }
                let n = lchilds.pop().unwrap();
                rchilds.push(n);
                assert(lchilds@ =~= old_l.drop_last());
                assert(lchilds@.to_multiset().add(rchilds@.to_multiset()) =~= orig.to_multiset());
                assert forall|l: Node<D, T>, r: Node<D, T>|
                    #[trigger] lchilds@.to_multiset().count(l) > 0 && #[trigger]
                    rchilds@.to_multiset().count(r) > 0 && Self::near_lo(
                        b,
                        ax,
                        r.rect@,
                    ) implies r.rect@.hi[ax] <= l.rect@.hi[ax] by {
                    assert(old_l.to_multiset().count(l) > 0);
                    if old_r.to_multiset().count(r) > 0 {
                    } else {
                        assert(r == n);
                        let k = lemma_member_index(lchilds@, l);
                        assert(old_l[k] == l);
                        assert(old_l[k].sort_key(axis, true, true) <= old_l[old_l.len()
                            - 1].sort_key(axis, true, true));
                    }
                }
            }
        }
        let ghost lm = lchilds@.to_multiset();
        let ghost rm = rchilds@.to_multiset();
        proof {
            to_multiset_len(lchilds@);
            to_multiset_len(rchilds@);
        }
        assert(Self::edge_snapped(b, ax, lm, rm));
        self.data = Data::Nodes(lchilds);
        right.data = Data::Nodes(rchilds);
        self.recalc();
        right.recalc();
        let ghost l1 = self.children();
        let ghost r1 = right.children();
        self.sort_by_axis(0);
        right.sort_by_axis(0);
        proof {
            Self::lemma_tight_permuted(self.rect@, l1, self.children());
            Self::lemma_tight_permuted(right.rect@, r1, right.children());
            to_multiset_len(self.children());
            to_multiset_len(right.children());
        }
        right
    }
}

} // verus!
