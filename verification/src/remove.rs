//! Removal below a branch, and the dissolving of branches that have become
//! too small.

use crate::node::{Data, Node, MIN_ITEMS};
use crate::rect::{
    lemma_contains_trans, lemma_intersects_outer, lemma_tight_swap_remove, lemma_tight_within,
    lemma_union_contains, Rect, Span,
};
use crate::seqs::{
    lemma_cancel, lemma_filter_empty, lemma_filter_first, lemma_filter_none,
    lemma_filter_single, lemma_member, lemma_member_index,
};
use vstd::pervasive::unreached;
use vstd::prelude::*;
use vstd::seq_lib::{lemma_multiset_commutative, to_multiset_len};
use vstd::std_specs::cmp::PartialEqSpec;

verus! {

impl<const D: usize, T> Node<D, T> {
    /// Empties a branch: moves every entry stored under it to the end of
    /// `reinsert`, the entries under the last child first.
    pub fn flatten_into(&mut self, reinsert: &mut Vec<(Rect<D>, T)>)
        requires
            old(self).is_branch(),
        ensures
            final(self).is_branch(),
            final(self).children().len() == 0,
            final(self).rect == old(self).rect,
            final(reinsert)@ == old(reinsert)@ + old(self).drained(),
        decreases *old(self),
    {
        let ghost orig = self.children();
        let mut nodes = self.take_nodes();
        assert(nodes@.take(nodes@.len() as int) =~= nodes@);
        assert(Self::drained_of(orig.skip(orig.len() as int)) =~= Seq::empty()) by {
            assert(orig.skip(orig.len() as int) =~= Seq::empty());
        }
        while nodes.len() > 0
            invariant
                nodes@ == orig.take(nodes@.len() as int),
                nodes@.len() <= orig.len(),
                orig == old(self).children(),
                old(self).is_branch(),
                reinsert@ + Self::drained_of(nodes@) == old(reinsert)@ + Self::drained_of(orig),
            decreases nodes.len(),
        {
            let ghost before = nodes@;
            let ghost k = nodes@.len() - 1;
            let node = nodes.pop().unwrap();
            assert(nodes@ =~= before.drop_last());
            assert(nodes@ =~= orig.take(k));
            assert(node == orig[k]);
            assert(Self::drained_of(before) == node.drained() + Self::drained_of(nodes@));
            let ghost pushed = reinsert@;
            let Node { rect, data } = node;
            match data {
                Data::Item(item) => {
                    reinsert.push((rect, item));
                    assert(reinsert@ =~= pushed + node.drained());
                },
                Data::Nodes(v) => {
                    let mut node = Node { rect, data: Data::Nodes(v) };
                    assert(node == orig[k]);
                    node.flatten_into(reinsert);
                },
            }
            assert(reinsert@ + Self::drained_of(nodes@) =~= pushed + Self::drained_of(before));
        }
        assert(Self::drained_of(nodes@) =~= Seq::empty());
        assert(reinsert@ =~= old(reinsert)@ + Self::drained_of(orig));
    }
}

impl<const D: usize, T> Node<D, T> {
    /// Entries inside `inner` are inside every span that contains `inner`.
    pub proof fn lemma_all_within_outer(es: Seq<(Rect<D>, T)>, inner: Span, outer: Span)
        requires
            inner.shaped(D as nat),
            outer.shaped(D as nat),
            outer.contains(inner),
            Self::all_within(es, inner),
        ensures
            Self::all_within(es, outer),
    {
        assert forall|k: int| 0 <= k < es.len() implies outer.contains((#[trigger] es[k]).0@)
            && es[k].0@.valid() by {
            lemma_contains_trans(outer, inner, es[k].0@);
        }
    }

    /// What a well-formed branch hands out when it is dissolved has valid
    /// rectangles inside the branch's own.
    pub proof fn lemma_drained_within(self, h: nat)
        requires
            self.wf(h),
        ensures
            Self::all_within(self.drained(), self.rect@),
    {
        self.lemma_wf_within(h);
        self.lemma_drained_bag();
        let ds = self.drained();
        let es = self.entries();
        assert forall|k: int| 0 <= k < ds.len() implies self.rect@.contains((#[trigger] ds[k]).0@)
            && ds[k].0@.valid() by {
            lemma_member(ds, k);
            let j = lemma_member_index(es, ds[k]);
        }
    }
}

impl<const D: usize, T: PartialEq> Node<D, T> {
    /// Whether an entry answers a removal of `data` at `rect`: its rectangle
    /// intersects `rect` and its payload equals `data`.
    pub open spec fn matching(rect: Rect<D>, data: T) -> spec_fn((Rect<D>, T)) -> bool {
        |e: (Rect<D>, T)| e.0@.intersects(rect@) && e.1.eq_spec(&data)
    }

    /// The entries under the node that answer a removal of `data` at `rect`,
    /// in depth-first order.
    pub open spec fn hits(self, rect: Rect<D>, data: T) -> Seq<(Rect<D>, T)> {
        self.entries().filter(Self::matching(rect, data))
    }

    /// Under a node whose rectangle does not intersect `rect` no entry
    /// answers a removal at `rect`.
    pub proof fn lemma_no_hits_outside(self, h: nat, rect: Rect<D>, data: T)
        requires
            self.fits_under(h),
            !self.rect@.intersects(rect@),
        ensures
            self.hits(rect, data).len() == 0,
    {
        self.lemma_fits_within(h);
        let es = self.entries();
        let pred = Self::matching(rect, data);
        assert forall|k: int| 0 <= k < es.len() implies !pred(#[trigger] es[k]) by {
            if es[k].0@.intersects(rect@) {
                lemma_intersects_outer(self.rect@, es[k].0@, rect@);
            }
        }
        lemma_filter_empty(es, pred);
    }

    /// The children of a branch after child `i` has been moved out by
    /// putting the last child in its place.
    pub open spec fn without(kids: Seq<Node<D, T>>, i: int) -> Seq<Node<D, T>> {
        kids.update(i, kids.last()).drop_last()
    }

    /// The rectangle of `post` is what recomputing leaves where `recalced`
    /// holds, and that of `pre` otherwise.
    pub open spec fn rebounded(pre: Node<D, T>, post: Node<D, T>, recalced: bool) -> bool {
        &&& !recalced ==> post.rect == pre.rect
        &&& recalced && post.children().len() == 0 ==> post.rect == pre.rect
        &&& recalced && post.children().len() > 0 ==> post.rect@.tightly_bounds(
            Self::spans(post.children()),
        )
    }

    /// No entry under the first `i` nodes of `kids` answers the removal.
    pub open spec fn none_before(kids: Seq<Node<D, T>>, i: int, rect: Rect<D>, data: T) -> bool {
        Self::entries_of(kids.take(i)).filter(Self::matching(rect, data)).len() == 0
    }

    /// A branch from which children have left, and whose rectangle was
    /// recomputed where needed, is well formed inside its old rectangle.
    proof fn lemma_rest_wf(pre: Node<D, T>, post: Node<D, T>, h: nat)
        requires
            pre.wf(h),
            pre.children().len() > 0,
            post.is_branch(),
            post.children().len() > 0 ==> post.rect@.tightly_bounds(Self::spans(post.children())),
            post.children().len() == 0 ==> post.rect == pre.rect,
            forall|j: int|
                0 <= j < post.children().len() ==> (#[trigger] post.children()[j]).fits_under(h)
                    && pre.rect@.contains(post.children()[j].rect@),
        ensures
            post.wf(h),
            pre.rect@.contains(post.rect@),
    {
        let b = pre.rect@;
        let rest = post.children();
        lemma_union_contains(b, b);
        assert(b.contains(b));
        if rest.len() > 0 {
            assert forall|j: int| 0 <= j < Self::spans(rest).len() implies b.contains(
                #[trigger] Self::spans(rest)[j],
            ) by {
                assert(b.contains(rest[j].rect@));
            }
            lemma_tight_within(b, post.rect@, Self::spans(rest));
        }
    }

    /// The first entry to answer a removal under a branch is the first to
    /// answer under child `i`, where none answers under the children before
    /// it.
    proof fn lemma_first_hit(pre: Node<D, T>, i: int, rect: Rect<D>, data: T)
        requires
            pre.is_branch(),
            0 <= i < pre.children().len(),
            Self::none_before(pre.children(), i, rect, data),
            pre.children()[i].hits(rect, data).len() > 0,
        ensures
            pre.hits(rect, data).len() > 0,
            pre.hits(rect, data)[0] == pre.children()[i].hits(rect, data)[0],
    {
        let kids = pre.children();
        Self::lemma_entries_split(kids, i);
        lemma_filter_first(
            Self::entries_of(kids.take(i)),
            kids[i].entries(),
            Self::entries_of(kids.skip(i + 1)),
            Self::matching(rect, data),
        );
    }

    /// A branch stays tightly bounded, with children that fit under it and
    /// lie inside it, when a child that does not touch its faces is moved
    /// out.
    proof fn lemma_moved_out(pre: Node<D, T>, rest: Seq<Node<D, T>>, h: nat, i: int, inside: bool)
        requires
            pre.wf(h),
            0 <= i < pre.children().len(),
            rest == Self::without(pre.children(), i),
            inside ==> !pre.rect@.on_edge(pre.children()[i].rect@),
        ensures
            inside && rest.len() > 0 ==> pre.rect@.tightly_bounds(Self::spans(rest)),
            forall|j: int|
                0 <= j < rest.len() ==> (#[trigger] rest[j]).fits_under(h) && pre.rect@.contains(
                    rest[j].rect@,
                ),
    {
        let kids = pre.children();
        let b = pre.rect@;
        assert(Self::spans(rest) =~= Self::spans(kids).update(
            i,
            Self::spans(kids).last(),
        ).drop_last());
        assert(Self::spans(kids)[i] == kids[i].rect@);
        if inside {
            assert forall|j: int| 0 <= j < Self::spans(kids).len() implies (
            #[trigger] Self::spans(kids)[j]).shaped(b.dim()) by {}
            lemma_tight_swap_remove(b, Self::spans(kids), i);
        }
        assert forall|j: int| 0 <= j < rest.len() implies (#[trigger] rest[j]).fits_under(h)
            && b.contains(rest[j].rect@) by {
            if j == i {
                assert(rest[j] == kids[kids.len() - 1]);
                assert(Self::spans(kids)[kids.len() - 1] == rest[j].rect@);
            } else {
                assert(rest[j] == kids[j]);
                assert(Self::spans(kids)[j] == rest[j].rect@);
            }
        }
    }

    /// What holds of a branch at the leaves after the entry at `i`, the
    /// first to answer the removal, has been taken out.
    pub proof fn lemma_removed_leaf(
        pre: Node<D, T>,
        post: Node<D, T>,
        i: int,
        rect: Rect<D>,
        data: T,
        recalced: bool,
    )
        requires
            pre.wf(0),
            0 <= i < pre.children().len(),
            Self::none_before(pre.children(), i, rect, data),
            Self::matching(rect, data)((pre.children()[i].rect, pre.children()[i].payload())),
            post.is_branch(),
            post.children() == Self::without(pre.children(), i),
            recalced == pre.rect@.on_edge(pre.children()[i].rect@),
            Self::rebounded(pre, post, recalced),
        ensures
            post.wf(0),
            pre.rect@.contains(post.rect@),
            pre.hits(rect, data).len() > 0,
            pre.hits(rect, data)[0] == (pre.children()[i].rect, pre.children()[i].payload()),
            post.bag().insert((pre.children()[i].rect, pre.children()[i].payload())) == pre.bag(),
    {
        let c0 = pre.children()[i];
        let e = (c0.rect, c0.payload());
        assert(c0.fits_under(0));
        assert(c0.entries() =~= seq![e]);
        lemma_filter_single(e, Self::matching(rect, data));
        Self::lemma_first_hit(pre, i, rect, data);
        Self::lemma_moved_out(pre, post.children(), 0, i, !recalced);
        Self::lemma_rest_wf(pre, post, 0);
        Self::lemma_removed_leaf_bag(pre, post, i);
    }

    /// The entries of a branch at the leaves before a removal are those it
    /// stores after it and the entry removed.
    proof fn lemma_removed_leaf_bag(pre: Node<D, T>, post: Node<D, T>, i: int)
        requires
            pre.is_branch(),
            post.is_branch(),
            0 <= i < pre.children().len(),
            pre.children()[i].is_item(),
            post.children() == Self::without(pre.children(), i),
        ensures
            post.bag().insert((pre.children()[i].rect, pre.children()[i].payload())) == pre.bag(),
    {
        broadcast use vstd::multiset::group_multiset_axioms;

        let kids = pre.children();
        let c0 = kids[i];
        let e = (c0.rect, c0.payload());
        c0.lemma_leaf_bag();
        Self::lemma_bag_swap_remove(kids, i);
        pre.lemma_bag_children();
        post.lemma_bag_children();
        assert(post.bag().insert(e) =~= pre.bag());
    }

    /// Where no entry answers under the children before child `i` nor under
    /// child `i`, none answers under the children before child `i + 1`.
    pub proof fn lemma_passed_child(kids: Seq<Node<D, T>>, i: int, rect: Rect<D>, data: T)
        requires
            0 <= i < kids.len(),
            Self::none_before(kids, i, rect, data),
            kids[i].hits(rect, data).len() == 0,
        ensures
            Self::none_before(kids, i + 1, rect, data),
    {
        Self::lemma_entries_split(kids, i);
        lemma_filter_none(
            Self::entries_of(kids.take(i)),
            kids[i].entries(),
            Self::matching(rect, data),
        );
    }

    /// The payload of a leaf answers exactly if the leaf's one entry does.
    pub proof fn lemma_leaf_hits(self, rect: Rect<D>, data: T)
        requires
            self.is_item(),
        ensures
            self.hits(rect, data).len() > 0 <==> Self::matching(rect, data)(
                (self.rect, self.payload()),
            ),
            self.hits(rect, data).len() > 0 ==> self.hits(rect, data)[0] == (
                self.rect,
                self.payload(),
            ),
    {
        let e = (self.rect, self.payload());
        assert(self.entries() =~= seq![e]);
        lemma_filter_single(e, Self::matching(rect, data));
    }

    /// What holds of a branch above the leaves after the first entry to
    /// answer the removal, `e`, has been taken out from under child `i`.
    /// The child has become `c1` and has handed the entries `batch_c` over;
    /// where it was left with fewer than `MIN_ITEMS` children it has been
    /// moved out and dissolved.
    pub proof fn lemma_removed_below(
        pre: Node<D, T>,
        post: Node<D, T>,
        h: nat,
        i: int,
        c1: Node<D, T>,
        e: (Rect<D>, T),
        batch_c: Seq<(Rect<D>, T)>,
        rect: Rect<D>,
        data: T,
        child_recalced: bool,
        recalced: bool,
    ) -> (batch: Seq<(Rect<D>, T)>)
        requires
            h > 0,
            pre.wf(h),
            0 <= i < pre.children().len(),
            Self::none_before(pre.children(), i, rect, data),
            pre.children()[i].hits(rect, data).len() > 0,
            e == pre.children()[i].hits(rect, data)[0],
            c1.wf((h - 1) as nat),
            c1.bag().add(batch_c.to_multiset()).insert(e) == pre.children()[i].bag(),
            c1.children().len() <= pre.children()[i].children().len(),
            !child_recalced ==> c1.rect == pre.children()[i].rect,
            pre.children()[i].rect@.contains(c1.rect@),
            Self::all_within(batch_c, pre.children()[i].rect@),
            post.is_branch(),
            post.children() == if c1.children().len() < MIN_ITEMS {
                Self::without(pre.children().update(i, c1), i)
            } else {
                pre.children().update(i, c1)
            },
            recalced == (child_recalced || (c1.children().len() < MIN_ITEMS && pre.rect@.on_edge(
                c1.rect@,
            ))),
            Self::rebounded(pre, post, recalced),
        ensures
            batch == if c1.children().len() < MIN_ITEMS {
                batch_c + c1.drained()
            } else {
                batch_c
            },
            post.wf(h),
            pre.rect@.contains(post.rect@),
            pre.hits(rect, data).len() > 0,
            pre.hits(rect, data)[0] == e,
            post.bag().add(batch.to_multiset()).insert(e) == pre.bag(),
            Self::all_within(batch, pre.rect@),
            post.children().len() <= pre.children().len() <= post.children().len() + 1,
    {
        let pred = Self::matching(rect, data);
        let kids = pre.children();
        let rest = post.children();
        let c0 = kids[i];
        let b = pre.rect@;
        let kids1 = kids.update(i, c1);
        let underflow = c1.children().len() < MIN_ITEMS;
        let batch = if underflow {
            batch_c + c1.drained()
        } else {
            batch_c
        };
        assert(c0.fits_under(h));
        assert(Self::spans(kids)[i] == c0.rect@);
        assert(b.contains(c0.rect@));
        lemma_contains_trans(b, c0.rect@, c1.rect@);
        Self::lemma_first_hit(pre, i, rect, data);
        // the shape of what is left
        if underflow {
            assert(Self::spans(rest) =~= Self::spans(kids1).update(
                i,
                Self::spans(kids1).last(),
            ).drop_last());
            if !recalced {
                assert(Self::spans(kids1) =~= Self::spans(kids));
                assert forall|j: int| 0 <= j < Self::spans(kids).len() implies (
                #[trigger] Self::spans(kids)[j]).shaped(b.dim()) by {}
                lemma_tight_swap_remove(b, Self::spans(kids), i);
            }
        } else {
            assert(c1.fits_under(h));
            if !recalced {
                assert(Self::spans(kids1) =~= Self::spans(kids));
            }
        }
        assert forall|j: int| 0 <= j < rest.len() implies (#[trigger] rest[j]).fits_under(h)
            && b.contains(rest[j].rect@) by {
            if underflow {
                if j == i {
                    assert(rest[j] == kids[kids.len() - 1]);
                    assert(Self::spans(kids)[kids.len() - 1] == rest[j].rect@);
                } else {
                    assert(rest[j] == kids[j]);
                    assert(Self::spans(kids)[j] == rest[j].rect@);
                }
            } else {
                if j != i {
                    assert(rest[j] == kids[j]);
                    assert(Self::spans(kids)[j] == rest[j].rect@);
                }
            }
        }
        Self::lemma_rest_wf(pre, post, h);
        // what was handed over
        Self::lemma_all_within_outer(batch_c, c0.rect@, b);
        if underflow {
            c1.lemma_drained_within((h - 1) as nat);
            Self::lemma_all_within_outer(c1.drained(), c1.rect@, b);
            assert forall|k: int| 0 <= k < batch.len() implies b.contains((#[trigger] batch[k]).0@)
                && batch[k].0@.valid() by {
                if k < batch_c.len() {
                    assert(batch[k] == batch_c[k]);
                } else {
                    assert(batch[k] == c1.drained()[k - batch_c.len()]);
                }
            }
        }
        Self::lemma_removed_below_bag(pre, post, i, c1, e, batch_c, batch);
        batch
    }

    /// The entries of a branch before a removal are those it stores after
    /// it, those handed over, and the entry removed.
    proof fn lemma_removed_below_bag(
        pre: Node<D, T>,
        post: Node<D, T>,
        i: int,
        c1: Node<D, T>,
        e: (Rect<D>, T),
        batch_c: Seq<(Rect<D>, T)>,
        batch: Seq<(Rect<D>, T)>,
    )
        requires
            pre.is_branch(),
            post.is_branch(),
            0 <= i < pre.children().len(),
            c1.bag().add(batch_c.to_multiset()).insert(e) == pre.children()[i].bag(),
            post.children() == if c1.children().len() < MIN_ITEMS {
                Self::without(pre.children().update(i, c1), i)
            } else {
                pre.children().update(i, c1)
            },
            batch == if c1.children().len() < MIN_ITEMS {
                batch_c + c1.drained()
            } else {
                batch_c
            },
        ensures
            post.bag().add(batch.to_multiset()).insert(e) == pre.bag(),
    {
        broadcast use vstd::multiset::group_multiset_axioms;

        let kids = pre.children();
        let rest = post.children();
        let c0 = kids[i];
        let kids1 = kids.update(i, c1);
        let underflow = c1.children().len() < MIN_ITEMS;
        Self::lemma_bag_update(kids, i, c1);
        pre.lemma_bag_children();
        post.lemma_bag_children();
        if underflow {
            c1.lemma_drained_bag();
            Self::lemma_bag_swap_remove(kids1, i);
            lemma_multiset_commutative(batch_c, c1.drained());
        }
        let goal = post.bag().add(batch.to_multiset()).insert(e);
        assert forall|v: (Rect<D>, T)| goal.add(c0.bag()).count(v) == pre.bag().add(
            c0.bag(),
        ).count(v) by {
            assert(Self::bag_of(kids1).add(c0.bag()).count(v) == Self::bag_of(kids).add(
                c1.bag(),
            ).count(v));
            assert(c1.bag().add(batch_c.to_multiset()).insert(e).count(v) == c0.bag().count(v));
            if underflow {
                assert(Self::bag_of(rest).add(c1.bag()).count(v) == Self::bag_of(kids1).count(v));
            }
        }
        assert(goal.add(c0.bag()) =~= pre.bag().add(c0.bag()));
        lemma_cancel(goal, pre.bag(), c0.bag());
    }

    /// The entry `e` at place `i` of a branch at the leaves is the first to
    /// answer the removal, and `post` is the branch without it: the last
    /// child stands in its place, and the rectangle was computed anew, as
    /// `flag` says, exactly if the entry touched a face of the branch.
    pub open spec fn removed_at(
        pre: Node<D, T>,
        post: Node<D, T>,
        rect: Rect<D>,
        data: T,
        e: (Rect<D>, T),
        batch: Seq<(Rect<D>, T)>,
        flag: bool,
        i: int,
    ) -> bool {
        &&& 0 <= i < pre.children().len()
        &&& Self::none_before(pre.children(), i, rect, data)
        &&& Self::matching(rect, data)(e)
        &&& e == (pre.children()[i].rect, pre.children()[i].payload())
        &&& post.is_branch()
        &&& post.children() == Self::without(pre.children(), i)
        &&& flag == pre.rect@.on_edge(e.0@)
        &&& Self::rebounded(pre, post, flag)
        &&& batch.len() == 0
    }

    /// Child `i` of a branch above the leaves is the first under which an
    /// entry answers the removal. The removal below it has made it `c1`,
    /// handed over `batch_c` and said `flag_c`. Where `c1` is left with
    /// fewer than `MIN_ITEMS` children it has been moved out, the last child
    /// standing in its place, and what it stored follows `batch_c`;
    /// otherwise it stands where the child stood. No other child has
    /// changed. The rectangle was computed anew, as `flag` says, exactly if
    /// that of the child was, or the child was moved out and touched a face
    /// of the branch.
    pub open spec fn removed_under(
        pre: Node<D, T>,
        post: Node<D, T>,
        rect: Rect<D>,
        data: T,
        batch: Seq<(Rect<D>, T)>,
        flag: bool,
        i: int,
        c1: Node<D, T>,
        batch_c: Seq<(Rect<D>, T)>,
        flag_c: bool,
    ) -> bool {
        let kids = pre.children();
        let underflow = c1.children().len() < MIN_ITEMS;
        &&& 0 <= i < kids.len()
        &&& Self::none_before(kids, i, rect, data)
        &&& post.is_branch()
        &&& post.children() == if underflow {
            Self::without(kids.update(i, c1), i)
        } else {
            kids.update(i, c1)
        }
        &&& batch == if underflow {
            batch_c + c1.drained()
        } else {
            batch_c
        }
        &&& flag == (flag_c || (underflow && pre.rect@.on_edge(c1.rect@)))
        &&& Self::rebounded(pre, post, flag)
    }

    /// `post`, `e`, `batch` and `flag` are what the removal of `data` at
    /// `rect` from under the branch `pre`, `h` levels above the leaves,
    /// leaves, returns, hands over and says: at the leaves as `removed_at`
    /// says of some place; above them as `removed_under` says of some
    /// child, under which the same holds one level lower.
    pub open spec fn removed(
        pre: Node<D, T>,
        post: Node<D, T>,
        h: nat,
        rect: Rect<D>,
        data: T,
        e: (Rect<D>, T),
        batch: Seq<(Rect<D>, T)>,
        flag: bool,
    ) -> bool
        decreases h,
    {
        if h == 0 {
            exists|i: int| #[trigger] Self::removed_at(pre, post, rect, data, e, batch, flag, i)
        } else {
            exists|i: int, c1: Node<D, T>, batch_c: Seq<(Rect<D>, T)>, flag_c: bool|
                {
                    &&& #[trigger] Self::removed_under(
                        pre,
                        post,
                        rect,
                        data,
                        batch,
                        flag,
                        i,
                        c1,
                        batch_c,
                        flag_c,
                    )
                    &&& Self::removed(
                        pre.children()[i],
                        c1,
                        (h - 1) as nat,
                        rect,
                        data,
                        e,
                        batch_c,
                        flag_c,
                    )
                }
        }
    }

    /// Whether some entry under a branch `height` levels above the leaves
    /// answers a removal of `data` at `rect`. Children whose rectangle does
    /// not intersect `rect` are passed over.
    pub fn has_hit(&self, rect: &Rect<D>, data: &T, height: usize) -> (r: bool)
        requires
            T::obeys_eq_spec(),
            self.wf(height as nat),
        ensures
            r == (self.hits(*rect, *data).len() > 0),
        decreases height,
    {
        let ghost h = height as nat;
        let ghost kids = self.children();
        let nodes = self.nodes();
        proof {
            assert(kids.take(0) =~= Seq::empty());
            lemma_filter_empty(Self::entries_of(kids.take(0)), Self::matching(*rect, *data));
        }
        let mut i: usize = 0;
        while i < nodes.len()
            invariant
                T::obeys_eq_spec(),
                h == height,
                self.wf(h),
                nodes@ == kids,
                kids == self.children(),
                i <= kids.len(),
                Self::none_before(kids, i as int, *rect, *data),
            decreases kids.len() - i,
        {
            let ghost c = kids[i as int];
            assert(c.fits_under(h));
            if nodes[i].rect.intersects(rect) {
                let hit = if height == 0 {
                    proof {
                        c.lemma_leaf_hits(*rect, *data);
                    }
                    nodes[i].item() == data
                } else {
                    nodes[i].has_hit(rect, data, height - 1)
                };
                if hit {
                    proof {
                        if height == 0 {
                            c.lemma_leaf_hits(*rect, *data);
                        }
                        Self::lemma_first_hit(*self, i as int, *rect, *data);
                    }
                    return true;
                }
                proof {
                    if height == 0 {
                        c.lemma_leaf_hits(*rect, *data);
                    }
                }
            } else {
                proof {
                    c.lemma_no_hits_outside(h, *rect, *data);
                }
            }
            proof {
                Self::lemma_passed_child(kids, i as int, *rect, *data);
            }
            i += 1;
        }
        proof {
            assert(kids.take(i as int) =~= kids);
        }
        false
    }

    /// Removes from under a branch `height` levels above the leaves the
    /// first entry, in depth-first order, whose rectangle intersects `rect`
    /// and whose payload equals `data`, and returns it. The search passes
    /// over children whose rectangle does not intersect `rect`, and goes
    /// down into the first child under which an entry answers. A child left
    /// with fewer than `MIN_ITEMS` children is dissolved: its entries are
    /// appended to `reinsert` and it leaves the branch. The flag returned
    /// says whether the rectangle of the branch was computed anew. Where no
    /// entry answers, nothing is changed.
    pub fn remove(
        &mut self,
        rect: &Rect<D>,
        data: &T,
        reinsert: &mut Vec<(Rect<D>, T)>,
        height: usize,
    ) -> (res: (Option<(Rect<D>, T)>, bool))
        requires
            T::obeys_eq_spec(),
            old(self).wf(height as nat),
        ensures
            final(self).wf(height as nat),
            res.0 is Some <==> old(self).hits(*rect, *data).len() > 0,
            res.0 matches Some(e) ==> e == old(self).hits(*rect, *data)[0],
            res.0 matches Some(e) ==> Self::removed(
                *old(self),
                *final(self),
                height as nat,
                *rect,
                *data,
                e,
                final(reinsert)@.skip(old(reinsert)@.len() as int),
                res.1,
            ),
            res.0 matches Some(e) ==> final(self).bag().add(
                final(reinsert)@.skip(old(reinsert)@.len() as int).to_multiset(),
            ).insert(e) == old(self).bag(),
            res.0 is None ==> *final(self) == *old(self),
            res.0 is None ==> !res.1,
            res.0 is None || height == 0 ==> final(reinsert)@ == old(reinsert)@,
            !res.1 ==> final(self).rect == old(self).rect,
            old(self).rect@.contains(final(self).rect@),
            final(self).children().len() <= old(self).children().len(),
            old(self).children().len() <= final(self).children().len() + 1,
            old(reinsert)@.len() <= final(reinsert)@.len(),
            final(reinsert)@.take(old(reinsert)@.len() as int) == old(reinsert)@,
            Self::all_within(
                final(reinsert)@.skip(old(reinsert)@.len() as int),
                old(self).rect@,
            ),
        decreases height,
    {
        let ghost h = height as nat;
        let ghost b = self.rect@;
        let ghost before = reinsert@;
        let ghost pre = *self;
        let ghost kids = self.children();
        proof {
            lemma_union_contains(b, b);
            assert(b.contains(b));
            assert(before.take(before.len() as int) =~= before);
            assert(before.skip(before.len() as int) =~= Seq::empty());
            assert(kids.take(0) =~= Seq::empty());
            lemma_filter_empty(Self::entries_of(kids.take(0)), Self::matching(*rect, *data));
        }
        let mut i: usize = 0;
        while i < self.len()
            invariant
                T::obeys_eq_spec(),
                h == height,
                b == pre.rect@,
                b.contains(b),
                pre == *old(self),
                kids == pre.children(),
                pre.wf(h),
                *self == pre,
                before == old(reinsert)@,
                before.take(before.len() as int) == before,
                before.skip(before.len() as int) == Seq::<(Rect<D>, T)>::empty(),
                reinsert@ == before,
                i <= kids.len(),
                Self::none_before(kids, i as int, *rect, *data),
            decreases kids.len() - i,
        {
            let ghost c0 = kids[i as int];
            assert(c0.fits_under(h));
            if height == 0 {
                let nodes = self.nodes();
                let hit = nodes[i].rect.intersects(rect) && nodes[i].item() == data;
                proof {
                    c0.lemma_leaf_hits(*rect, *data);
                }
                if hit {
                    let nodes = self.nodes_mut();
                    let out = nodes.swap_remove(i);
                    let recalced = self.rect.on_edge(&out.rect);
                    if recalced {
                        self.recalc();
                    }
                    let Node { rect: orect, data: odata } = out;
                    let item = match odata {
                        Data::Item(d) => d,
                        Data::Nodes(_) => unreached(),
                    };
                    proof {
                        let e = (orect, item);
                        Self::lemma_removed_leaf(pre, *self, i as int, *rect, *data, recalced);
                        to_multiset_len(Seq::<(Rect<D>, T)>::empty());
                        assert(self.bag().add(Seq::<(Rect<D>, T)>::empty().to_multiset())
                            =~= self.bag()) by {
                            broadcast use vstd::multiset::group_multiset_axioms;

                        }
                        assert(Self::removed_at(
                            pre,
                            *self,
                            *rect,
                            *data,
                            e,
                            reinsert@.skip(before.len() as int),
                            recalced,
                            i as int,
                        ));
                    }
                    return (Some((orect, item)), recalced);
                }
            } else {
                let found = self.nodes()[i].rect.intersects(rect) && self.nodes()[i].has_hit(
                    rect,
                    data,
                    height - 1,
                );
                if found {
                    let nodes = self.nodes_mut();
                    let (removed, child_recalced) = nodes[i].remove(
                        rect,
                        data,
                        reinsert,
                        height - 1,
                    );
                    let ghost c1 = nodes@[i as int];
                    let ghost batch_c = reinsert@.skip(before.len() as int);
                    let ghost mid = reinsert@;
                    let mut recalced = child_recalced;
                    let underflow = nodes[i].len() < MIN_ITEMS;
                    if underflow {
                        let nrect = nodes[i].rect;
                        let mut gone = nodes.swap_remove(i);
                        gone.flatten_into(reinsert);
                        if !recalced {
                            recalced = self.rect.on_edge(&nrect);
                        }
                    }
                    if recalced {
                        self.recalc();
                    }
                    proof {
                        let e = removed.unwrap();
                        let batch = Self::lemma_removed_below(
                            pre,
                            *self,
                            h,
                            i as int,
                            c1,
                            e,
                            batch_c,
                            *rect,
                            *data,
                            child_recalced,
                            recalced,
                        );
                        assert(reinsert@.skip(before.len() as int) =~= batch);
                        assert(reinsert@.take(before.len() as int) =~= mid.take(
                            before.len() as int,
                        ));
                        assert(Self::removed_under(
                            pre,
                            *self,
                            *rect,
                            *data,
                            batch,
                            recalced,
                            i as int,
                            c1,
                            batch_c,
                            child_recalced,
                        ));
                    }
                    return (removed, recalced);
                }
                proof {
                    if !c0.rect@.intersects(rect@) {
                        c0.lemma_no_hits_outside(h, *rect, *data);
                    }
                }
            }
            proof {
                Self::lemma_passed_child(kids, i as int, *rect, *data);
            }
            i += 1;
        }
        proof {
            assert(kids.take(i as int) =~= kids);
        }
        (None, false)
    }
}

} // verus!
