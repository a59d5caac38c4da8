//! What holds of a tree in every state that its operations can reach.

use crate::node::{Data, Node, MAX_ITEMS, MIN_ITEMS};
use crate::rect::{
    lemma_inner_measurable, lemma_tight_single, lemma_tight_unique, lemma_union_contains,
    lemma_union_within, lemma_view_injective, Rect, Span,
};
use crate::seqs::{
    lemma_cancel, lemma_filter_some, lemma_member, lemma_member_index, lemma_same_members,
};
use crate::tree::RTree;
use vstd::multiset::Multiset;
use vstd::prelude::*;
use vstd::seq_lib::{to_multiset_build, to_multiset_len};
use vstd::std_specs::cmp::PartialEqSpec;

verus! {

/// The views of the rectangles of the entries `es`, in order.
pub open spec fn rects_of<const D: usize, T>(es: Seq<(Rect<D>, T)>) -> Seq<Span> {
    Seq::new(es.len(), |i: int| es[i].0@)
}

/// How many of the steps of `grew` are `true`, less how many are `false`.
pub open spec fn balance(grew: Seq<bool>) -> int
    decreases grew.len(),
{
    if grew.len() == 0 {
        0
    } else if grew.last() {
        balance(grew.drop_last()) + 1
    } else {
        balance(grew.drop_last()) - 1
    }
}

/// `more` holds one entry more than `less`, and otherwise the same.
pub open spec fn one_more<A>(less: Multiset<A>, more: Multiset<A>) -> bool {
    exists|e: A| more == #[trigger] less.insert(e)
}

/// The squared positive part of a gap.
pub open spec fn sq_pos(g: int) -> int {
    if g > 0 {
        g * g
    } else {
        0
    }
}

/// Lower bound: the squared distance from a span to `q` is not negative,
/// and is no more than that from any span inside it. A distance function
/// made of it gives the nearest-first traversal a valid lower bound.
pub proof fn law_sq_dist_lower_bound(outer: Span, inner: Span, q: Span, k: nat)
    requires
        outer.shaped(outer.dim()),
        inner.shaped(outer.dim()),
        q.shaped(outer.dim()),
        outer.contains(inner),
        k <= outer.dim(),
    ensures
        0 <= outer.sq_dist_to(q, k) <= inner.sq_dist_to(q, k),
        k == outer.dim() ==> 0 <= outer.sq_dist(q) <= inner.sq_dist(q),
    decreases k,
{
    if k > 0 {
        law_sq_dist_lower_bound(outer, inner, q, (k - 1) as nat);
        let a = outer.gap(q, k - 1);
        let b = inner.gap(q, k - 1);
        assert(outer.lo[k - 1] <= inner.lo[k - 1] && inner.hi[k - 1] <= outer.hi[k - 1]);
        assert(a <= b);
        assert(0 <= sq_pos(a) <= sq_pos(b)) by (nonlinear_arith)
            requires
                a <= b,
        ;
    }
}

/// Reach: where all bounds of two spans lie between `lo` and `hi`, the
/// squared distance between them over `k` axes is at most `k` times the
/// square of `hi - lo`.
pub proof fn law_sq_dist_reach(a: Span, q: Span, lo: int, hi: int, k: nat)
    requires
        a.shaped(a.dim()),
        q.shaped(a.dim()),
        k <= a.dim(),
        lo <= hi,
        forall|i: int|
            #![trigger a.lo[i]]
            0 <= i < a.dim() ==> lo <= a.lo[i] && a.lo[i] <= hi && lo <= a.hi[i] && a.hi[i] <= hi
                && lo <= q.lo[i] && q.lo[i] <= hi && lo <= q.hi[i] && q.hi[i] <= hi,
    ensures
        0 <= a.sq_dist_to(q, k) <= k * ((hi - lo) * (hi - lo)),
    decreases k,
{
    if k > 0 {
        law_sq_dist_reach(a, q, lo, hi, (k - 1) as nat);
        let g = a.gap(q, k - 1);
        let w = hi - lo;
        assert(lo <= a.lo[k - 1] && a.hi[k - 1] <= hi && lo <= q.lo[k - 1] && q.hi[k - 1] <= hi);
        assert(g <= w);
        assert(0 <= sq_pos(g) <= w * w) by (nonlinear_arith)
            requires
                g <= w,
                0 <= w,
        ;
        assert(k * (w * w) == (k - 1) * (w * w) + w * w) by (nonlinear_arith);
    }
}

/// Filtering commutes with forgetting the order.
pub proof fn lemma_filter_bag<A>(s: Seq<A>, pred: spec_fn(A) -> bool)
    ensures
        s.filter(pred).to_multiset() == s.to_multiset().filter(pred),
    decreases s.len(),
{
    broadcast use vstd::multiset::group_multiset_axioms;

    if s.len() == 0 {
        reveal(Seq::filter);
        to_multiset_len(s);
        to_multiset_len(s.filter(pred));
        assert(s.filter(pred).to_multiset() =~= s.to_multiset().filter(pred));
    } else {
        let d = s.drop_last();
        let x = s.last();
        lemma_filter_bag(d, pred);
        assert(s =~= d.push(x));
        d.lemma_filter_push(x, pred);
        to_multiset_build(d, x);
        if pred(x) {
            to_multiset_build(d.filter(pred), x);
        }
        assert(s.filter(pred).to_multiset() =~= s.to_multiset().filter(pred));
    }
}

impl<const D: usize, T> Node<D, T> {
    /// `n` is a node below `self`: one of its children, or below one.
    pub open spec fn below(self, n: Node<D, T>) -> bool
        decreases self,
    {
        match self.data {
            Data::Item(_) => false,
            Data::Nodes(v) => exists|i: int|
                0 <= i < v@.len() && (#[trigger] v@[i] == n || v@[i].below(n)),
        }
    }

    /// A node below a well-formed branch fits under a branch of some level.
    pub proof fn lemma_below_fits(self, h: nat, n: Node<D, T>) -> (k: nat)
        requires
            self.wf(h),
            self.below(n),
        ensures
            k <= h,
            n.fits_under(k),
        decreases h,
    {
        let kids = self.children();
        let i = choose|i: int| 0 <= i < kids.len() && (#[trigger] kids[i] == n || kids[i].below(n));
        assert(kids[i].fits_under(h));
        if kids[i] == n {
            h
        } else {
            kids[i].lemma_below_fits((h - 1) as nat, n)
        }
    }

    /// The rectangle of a node that fits under a branch tightly bounds the
    /// rectangles of the entries under the node.
    pub proof fn lemma_fits_tight_entries(self, h: nat)
        requires
            self.fits_under(h),
        ensures
            self.rect@.tightly_bounds(rects_of(self.entries())),
        decreases h, 0nat,
    {
        if h == 0 {
            let e = (self.rect, self.payload());
            assert(self.entries() =~= seq![e]);
            assert(rects_of(self.entries()) =~= seq![self.rect@]);
            lemma_tight_single(rects_of(self.entries()));
        } else {
            self.lemma_wf_tight_entries((h - 1) as nat);
        }
    }

    /// The rectangle of a well-formed branch with children tightly bounds
    /// the rectangles of the entries under the branch.
    pub proof fn lemma_wf_tight_entries(self, h: nat)
        requires
            self.wf(h),
            self.children().len() > 0,
        ensures
            self.rect@.tightly_bounds(rects_of(self.entries())),
        decreases h, 1nat,
    {
        let b = self.rect@;
        let kids = self.children();
        let es = self.entries();
        let parts = rects_of(es);
        self.lemma_wf_within(h);
        assert forall|j: int| 0 <= j < parts.len() implies b.contains(#[trigger] parts[j]) by {
            assert(b.contains(es[j].0@));
        }
        assert forall|a: int| 0 <= a < b.dim() implies #[trigger] b.meets_lo(parts, a) by {
            assert(b.meets_lo(Self::spans(kids), a));
            let j = choose|j: int|
                0 <= j < Self::spans(kids).len() && (#[trigger] Self::spans(kids)[j]).lo[a]
                    == b.lo[a];
            let c = kids[j];
            assert(c.fits_under(h));
            c.lemma_fits_tight_entries(h);
            let sub = rects_of(c.entries());
            assert(c.rect@.meets_lo(sub, a));
            let m = choose|m: int| 0 <= m < sub.len() && (#[trigger] sub[m]).lo[a] == c.rect@.lo[a];
            Self::lemma_entries_split(kids, j);
            let off = Self::entries_of(kids.take(j)).len() as int;
            assert(es[off + m] == c.entries()[m]);
            assert(parts[off + m].lo[a] == b.lo[a]);
        }
        assert forall|a: int| 0 <= a < b.dim() implies #[trigger] b.meets_hi(parts, a) by {
            assert(b.meets_hi(Self::spans(kids), a));
            let j = choose|j: int|
                0 <= j < Self::spans(kids).len() && (#[trigger] Self::spans(kids)[j]).hi[a]
                    == b.hi[a];
            let c = kids[j];
            assert(c.fits_under(h));
            c.lemma_fits_tight_entries(h);
            let sub = rects_of(c.entries());
            assert(c.rect@.meets_hi(sub, a));
            let m = choose|m: int| 0 <= m < sub.len() && (#[trigger] sub[m]).hi[a] == c.rect@.hi[a];
            Self::lemma_entries_split(kids, j);
            let off = Self::entries_of(kids.take(j)).len() as int;
            assert(es[off + m] == c.entries()[m]);
            assert(parts[off + m].hi[a] == b.hi[a]);
        }
    }
}

impl<const D: usize, T: PartialEq> RTree<D, T> {
    /// The count of a well-formed tree is the number of entries it stores.
    pub proof fn law_len(self)
        requires
            self.wf(),
        ensures
            self.spec_len() == self@.len(),
            self.spec_len() == self@.to_multiset().len(),
            self.spec_len() == 0 <==> self.bounds() is None,
    {
        to_multiset_len(self@);
        self.lemma_height_below_len();
        if self.root is Some {
            self.root.unwrap().lemma_wf_count(self.height as nat);
        }
    }

    /// Count: in a run of well-formed trees that starts with an empty one,
    /// where each next tree stores one entry more than the one before it
    /// (an insertion) or one entry less (a removal that found its entry),
    /// the count of the last tree is the number of insertions less the
    /// number of removals.
    pub proof fn law_count(trees: Seq<RTree<D, T>>, grew: Seq<bool>)
        requires
            trees.len() == grew.len() + 1,
            trees[0]@.len() == 0,
            forall|i: int| 0 <= i < trees.len() ==> (#[trigger] trees[i]).wf(),
            forall|i: int|
                0 <= i < grew.len() ==> if #[trigger] grew[i] {
                    one_more(trees[i]@.to_multiset(), trees[i + 1]@.to_multiset())
                } else {
                    one_more(trees[i + 1]@.to_multiset(), trees[i]@.to_multiset())
                },
        ensures
            trees.last().spec_len() == balance(grew),
        decreases grew.len(),
    {
        broadcast use vstd::multiset::group_multiset_axioms;

        trees.last().law_len();
        if grew.len() > 0 {
            let n = grew.len() as int;
            let before = trees.drop_last();
            let steps = grew.drop_last();
            assert forall|i: int| 0 <= i < before.len() implies (#[trigger] before[i]).wf() by {
                assert(before[i] == trees[i]);
            }
            assert forall|i: int| 0 <= i < steps.len() implies if #[trigger] steps[i] {
                one_more(before[i]@.to_multiset(), before[i + 1]@.to_multiset())
            } else {
                one_more(before[i + 1]@.to_multiset(), before[i]@.to_multiset())
            } by {
                assert(steps[i] == grew[i]);
                assert(before[i] == trees[i]);
                assert(before[i + 1] == trees[i + 1]);
            }
            Self::law_count(before, steps);
            assert(before.last() == trees[n - 1]);
            assert(trees.last() == trees[n]);
            trees[n - 1].law_len();
            assert(grew.last() == grew[n - 1]);
            let a = trees[n - 1]@.to_multiset();
            let b = trees[n]@.to_multiset();
            if grew[n - 1] {
                assert(one_more(a, b));
                let e = choose|e: (Rect<D>, T)| b == #[trigger] a.insert(e);
                assert(b.len() == a.len() + 1);
            } else {
                assert(one_more(b, a));
                let e = choose|e: (Rect<D>, T)| a == #[trigger] b.insert(e);
                assert(a.len() == b.len() + 1);
            }
        }
    }

    /// Occupancy: every branch below the root of a well-formed tree has at
    /// least `MIN_ITEMS` children and fewer than `MAX_ITEMS`; the root has
    /// at least one child and fewer than `MAX_ITEMS`.
    pub proof fn law_occupancy(self, n: Node<D, T>)
        requires
            self.wf(),
            self.spec_root() is Some,
            n.is_branch(),
            self.spec_root().unwrap() == n || self.spec_root().unwrap().below(n),
        ensures
            self.spec_root().unwrap().below(n) ==> MIN_ITEMS <= n.children().len() < MAX_ITEMS,
            0 < n.children().len() < MAX_ITEMS,
    {
        let root = self.root.unwrap();
        if root.below(n) {
            let k = root.lemma_below_fits(self.height as nat, n);
        }
    }

    /// Bounding: the rectangle of every branch of a well-formed tree tightly
    /// bounds the rectangles of its children: it contains each, and each of
    /// its faces is the face of one of them.
    pub proof fn law_bounding(self, n: Node<D, T>)
        requires
            self.wf(),
            self.spec_root() is Some,
            n.is_branch(),
            self.spec_root().unwrap() == n || self.spec_root().unwrap().below(n),
        ensures
            n.rect@.tightly_bounds(Node::spans(n.children())),
    {
        let root = self.root.unwrap();
        if root.below(n) {
            let k = root.lemma_below_fits(self.height as nat, n);
        }
    }

    /// The rectangle of a well-formed tree that is not empty tightly bounds
    /// the rectangles of all its entries.
    pub proof fn law_bounds(self)
        requires
            self.wf(),
            self.bounds() is Some,
        ensures
            self.bounds().unwrap()@.tightly_bounds(rects_of(self@)),
    {
        self.root.unwrap().lemma_wf_tight_entries(self.height as nat);
    }

    /// Two well-formed trees that store the same entries, in whatever
    /// arrangement, have the same bounding rectangle.
    pub proof fn law_same_bounds(self, other: RTree<D, T>)
        requires
            self.wf(),
            other.wf(),
            self@.to_multiset() == other@.to_multiset(),
        ensures
            self.bounds() == other.bounds(),
    {
        self.law_len();
        other.law_len();
        if self.root is Some {
            self.law_bounds();
            other.law_bounds();
            let a = self.bounds().unwrap();
            let b = other.bounds().unwrap();
            let p = rects_of(self@);
            let q = rects_of(other@);
            lemma_same_members(self@, other@);
            assert forall|j: int| 0 <= j < p.len() implies q.contains(#[trigger] p[j]) by {
                assert(other@.contains(self@[j]));
                let k = choose|k: int| 0 <= k < other@.len() && other@[k] == self@[j];
                assert(q[k] == p[j]);
            }
            assert forall|j: int| 0 <= j < q.len() implies p.contains(#[trigger] q[j]) by {
                assert(self@.contains(other@[j]));
                let k = choose|k: int| 0 <= k < self@.len() && self@[k] == other@[j];
                assert(p[k] == q[j]);
            }
            lemma_tight_unique(a@, b@, p, q);
            lemma_view_injective(a, b);
        }
    }

    /// Round trip: where a tree stores no entry that would answer a removal
    /// of `p` at `r`, inserting `(r, p)` and then removing `p` at `r` gives
    /// back exactly `(r, p)` and leaves a tree with the entries, the count
    /// and the bounding rectangle it had before. `t1` stands for the tree
    /// after the insertion, `t2` and `out` for the tree and the result after
    /// the removal.
    pub proof fn law_round_trip(
        t0: RTree<D, T>,
        t1: RTree<D, T>,
        t2: RTree<D, T>,
        r: Rect<D>,
        p: T,
        out: Option<(Rect<D>, T)>,
    )
        requires
            t0.wf(),
            t1.wf(),
            t2.wf(),
            r@.valid(),
            p.eq_spec(&p),
            t0.hits(r, p).len() == 0,
            t1@.to_multiset() == t0@.to_multiset().insert((r, p)),
            out is Some <==> t1.hits(r, p).len() > 0,
            out matches Some(e) ==> e == t1.hits(r, p)[0] && t2@.to_multiset().insert(e)
                == t1@.to_multiset(),
        ensures
            out == Some((r, p)),
            t2@.to_multiset() == t0@.to_multiset(),
            t2.spec_len() == t0.spec_len(),
            t2.bounds() == t0.bounds(),
    {
        broadcast use vstd::multiset::group_multiset_axioms;

        let pred = Node::<D, T>::matching(r, p);
        let own = (r, p);
        assert(pred(own)) by {
            assert forall|i: int| 0 <= i < r@.dim() implies r@.lo[i] <= r@.hi[i] by {}
            assert(r@.intersects(r@));
        }
        assert(t1@.to_multiset().count(own) > 0);
        let k = lemma_member_index(t1@, own);
        lemma_filter_some(t1@, pred);
        assert(pred(t1@[k]));
        assert(t1.hits(r, p).len() > 0);
        let e = out.unwrap();
        t1@.lemma_filter_pred(pred, 0);
        assert(pred(e));
        lemma_filter_bag(t1@, pred);
        lemma_member(t1.hits(r, p), 0);
        assert(t1@.to_multiset().filter(pred).count(e) > 0);
        assert(t1@.to_multiset().count(e) > 0);
        if e != own {
            assert(t0@.to_multiset().count(e) > 0);
            let j = lemma_member_index(t0@, e);
            lemma_filter_some(t0@, pred);
            assert(pred(t0@[j]));
            assert(false);
        }
        lemma_cancel(t2@.to_multiset(), t0@.to_multiset(), Multiset::singleton(own));
        t2.law_len();
        t0.law_len();
        t0.law_same_bounds(t2);
    }

    /// Room: where a measurable span holds every entry of the tree and holds
    /// `rect`, an entry with the rectangle `rect` can be inserted, and the
    /// tree then still lies in that span.
    pub proof fn law_room(self, rect: Rect<D>, domain: Span)
        requires
            self.wf(),
            rect@.valid(),
            domain.shaped(D as nat),
            domain.measurable(),
            domain.contains(rect@),
            self.bounds() matches Some(b) ==> domain.contains(b@),
        ensures
            self.reach(rect).measurable(),
            domain.contains(self.reach(rect)),
    {
        if self.root is Some {
            let root = self.root.unwrap();
            lemma_union_contains(root.rect@, rect@);
            lemma_union_within(domain, root.rect@, rect@);
        }
        lemma_inner_measurable(domain, self.reach(rect));
    }

    /// Search completeness: the entries that a search for `q` gives are the
    /// stored entries whose rectangle intersects `q`, each as often as it is
    /// stored.
    pub proof fn law_search_complete(self, q: Rect<D>)
        ensures
            self.found(q).to_multiset() == self@.to_multiset().filter(Node::touching(q)),
            forall|e: (Rect<D>, T)|
                self.found(q).to_multiset().count(e) == if e.0@.intersects(q@) {
                    self@.to_multiset().count(e)
                } else {
                    0
                },
    {
        broadcast use vstd::multiset::group_multiset_axioms;

        lemma_filter_bag(self@, Node::touching(q));
    }
}

} // verus!
