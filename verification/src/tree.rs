//! The tree: the root node, the number of entries and the height.

use crate::node::{Data, Node, MAX_ITEMS};
use crate::rect::{
    lemma_contains_trans, lemma_inner_measurable, lemma_tight_single, lemma_union_contains,
    lemma_union_within, Rect, Span,
};
use crate::rect::lemma_tight_within;
use crate::seqs::lemma_drop_last_bag;
use vstd::prelude::*;
use vstd::seq_lib::to_multiset_len;
use vstd::std_specs::cmp::PartialEqSpec;

verus! {

/// An R-tree of entries, each a rectangle with a payload.
pub struct RTree<const D: usize, T: PartialEq> {
    pub(crate) root: Option<Node<D, T>>,
    pub(crate) length: usize,
    pub(crate) height: usize,
}

impl<const D: usize, T: PartialEq> View for RTree<D, T> {
    type V = Seq<(Rect<D>, T)>;

    /// The entries of the tree in depth-first order.
    open(crate) spec fn view(&self) -> Seq<(Rect<D>, T)> {
        match self.root {
            Some(root) => root.entries(),
            None => Seq::empty(),
        }
    }
}

impl<const D: usize, T: PartialEq> RTree<D, T> {
    /// The number of entries, as the tree counts them.
    pub open(crate) spec fn spec_len(self) -> nat {
        self.length as nat
    }

    /// The number of levels of branches above the lowest.
    pub open(crate) spec fn spec_height(self) -> nat {
        self.height as nat
    }

    /// The root node, if the tree is not empty.
    pub open(crate) spec fn spec_root(self) -> Option<Node<D, T>> {
        self.root
    }

    /// The rectangle of the root, if the tree is not empty.
    pub open(crate) spec fn bounds(self) -> Option<Rect<D>> {
        match self.root {
            Some(root) => Some(root.rect),
            None => None,
        }
    }

    /// The span that bounds the tree once an entry with the rectangle `rect`
    /// has been added.
    pub open(crate) spec fn reach(self, rect: Rect<D>) -> Span {
        match self.root {
            Some(root) => root.rect@.union(rect@),
            None => rect@,
        }
    }

    /// The tree is well formed. An empty tree has no root and height 0.
    /// Otherwise the tree has an axis, and the root is a well-formed branch
    /// at the tree's height with at least one child and fewer than
    /// `MAX_ITEMS` (at least two above height 0); every other branch has at
    /// least `MIN_ITEMS` children and fewer than `MAX_ITEMS`; every
    /// branch's rectangle tightly bounds its children; all leaves are at
    /// the same depth; the count is the number of entries; and the root's
    /// rectangle is measurable.
    pub open(crate) spec fn wf(self) -> bool {
        match self.root {
            None => self.length == 0 && self.height == 0,
            Some(root) => {
                &&& D > 0
                &&& root.wf(self.height as nat)
                &&& 0 < root.children().len() < MAX_ITEMS
                &&& self.height > 0 ==> root.children().len() >= 2
                &&& self.length == root.entries().len()
                &&& root.rect@.measurable()
            },
        }
    }

    /// An empty tree.
    pub fn new() -> (tree: RTree<D, T>)
        ensures
            tree.wf(),
            tree@.len() == 0,
            tree.spec_len() == 0,
            tree.spec_height() == 0,
            tree.bounds() is None,
    {
        RTree { root: None, length: 0, height: 0 }
    }

    /// The number of entries.
    pub fn len(&self) -> (n: usize)
        ensures
            n == self.spec_len(),
            self.wf() ==> n == self@.len(),
    {
        self.length
    }

    /// The number of levels of branches above the lowest.
    pub fn height(&self) -> (h: usize)
        ensures
            h == self.spec_height(),
    {
        self.height
    }

    /// The root node, if the tree is not empty.
    pub fn root(&self) -> (root: Option<&Node<D, T>>)
        ensures
            root is Some == self.spec_root() is Some,
            root matches Some(r) ==> Some(*r) == self.spec_root(),
    {
        self.root.as_ref()
    }

    /// The rectangle that bounds every entry; none for an empty tree.
    pub fn rect(&self) -> (r: Option<Rect<D>>)
        ensures
            r == self.bounds(),
    {
        match &self.root {
            Some(root) => Some(root.rect),
            None => None,
        }
    }

    /// `r1` is the root of the tree once the entry `(rect, data)` has gone
    /// in, before the root is looked at: what the insertion below the old
    /// root leaves, or, for an empty tree, a branch with the rectangle
    /// `rect` and the entry as its one leaf.
    pub open(crate) spec fn took(self, r1: Node<D, T>, rect: Rect<D>, data: T) -> bool {
        match self.root {
            Some(r0) => Node::inserted(r0, r1, self.height as nat, rect, data),
            None => {
                &&& r1.is_branch()
                &&& r1.rect == rect
                &&& r1.children() == seq![Node { rect: rect, data: Data::Item(data) }]
            },
        }
    }

    /// The tree stands on `r1` as an insertion leaves it. Where `r1` has
    /// reached `MAX_ITEMS` children the tree is one level higher than
    /// `height`, and its root has the rectangle of `r1` and its two halves
    /// as children. Otherwise `r1` is the root and the height is `height`.
    pub open(crate) spec fn stands_on(self, r1: Node<D, T>, height: nat) -> bool {
        if r1.children().len() == MAX_ITEMS {
            &&& self.height == height + 1
            &&& self.root is Some
            &&& self.root.unwrap().is_branch()
            &&& self.root.unwrap().rect == r1.rect
            &&& self.root.unwrap().children().len() == 2
            &&& Node::split_of(
                r1,
                self.root.unwrap().children()[0],
                self.root.unwrap().children()[1],
            )
        } else {
            &&& self.height == height
            &&& self.root == Some(r1)
        }
    }

    /// Adds the entry `(rect, data)`. The root that reaches `MAX_ITEMS`
    /// children is split, and the two halves become the children of a new
    /// root: the tree grows by one level.
    pub fn insert(&mut self, rect: Rect<D>, data: T)
        requires
            D > 0,
            old(self).wf(),
            rect@.valid(),
            old(self).reach(rect).measurable(),
            old(self).spec_len() < usize::MAX,
        ensures
            final(self).wf(),
            final(self)@.to_multiset() == old(self)@.to_multiset().insert((rect, data)),
            final(self).spec_len() == old(self).spec_len() + 1,
            final(self).bounds() is Some,
            final(self).bounds().unwrap()@ == old(self).reach(rect),
            final(self).spec_height() == old(self).spec_height() || final(self).spec_height()
                == old(self).spec_height() + 1,
            final(self).spec_height() == old(self).spec_height() + 1
                ==> final(self).spec_root().unwrap().children().len() == 2,
            final(self).spec_height() == old(self).spec_height() + 1
                ==> old(self).spec_root() is Some
                && old(self).spec_root().unwrap().children().len() + 1 == MAX_ITEMS,
            final(self).spec_height() == old(self).spec_height() && old(self).spec_root() is Some
                ==> old(self).spec_root().unwrap().children().len()
                <= final(self).spec_root().unwrap().children().len()
                <= old(self).spec_root().unwrap().children().len() + 1,
            exists|r1: Node<D, T>|
                {
                    &&& #[trigger] old(self).took(r1, rect, data)
                    &&& final(self).stands_on(r1, old(self).spec_height())
                },
            old(self).spec_height() == 0 ==> (final(self).spec_height() == 1
                <==> old(self).spec_len() + 1 == MAX_ITEMS),
    {
        let ghost h = self.height as nat;
        let mut root = match self.root.take() {
            Some(root) => root,
            None => Node::new(rect),
        };
        let ghost r0 = root;
        proof {
            lemma_union_contains(rect@, rect@);
            assert(rect@.contains(rect@));
            if old(self).root is None {
                to_multiset_len(old(self)@);
                assert(r0.entries() =~= Seq::empty());
            }
        }
        root.insert(rect, data, self.height);
        let ghost r1 = root;
        proof {
            if h == 0 {
                Node::lemma_leaves_count(r0.children());
                Node::lemma_leaves_count(r1.children());
            }
            r1.lemma_bag_children();
            to_multiset_len(r1.entries());
            to_multiset_len(r0.entries());
            assert(r1.entries().len() == r0.entries().len() + 1) by {
                broadcast use vstd::multiset::group_multiset_axioms;

            }
        }
        if root.len() == MAX_ITEMS {
            let mut new_root = Node::new(root.rect);
            proof {
                r1.lemma_wf_valid(h);
            }
            let right = root.split_largest_axis_edge_snap();
            let ghost l = root.children();
            let ghost r = right.children();
            new_root.push(root);
            new_root.push(right);
            proof {
                let left = new_root.children()[0];
                let kids = seq![r1];
                to_multiset_len(l);
                to_multiset_len(r);
                to_multiset_len(r1.children());
                assert(l.to_multiset().add(r.to_multiset()).len() == l.len() + r.len()) by {
                    broadcast use vstd::multiset::group_multiset_axioms;

                }
                Node::lemma_fits_after_split(r1.children(), l, r, h);
                assert(Node::<D, T>::spans(kids) =~= seq![r1.rect@]);
                lemma_tight_single(Node::<D, T>::spans(kids));
                Node::lemma_tight_after_split(r1.rect@, kids, 0, left, right);
                assert(kids.update(0, left).push(right) =~= new_root.children());
                assert(left.fits_under(h + 1));
                assert(right.fits_under(h + 1));
                Node::lemma_bag_parts(l, r, r1.children());
                left.lemma_bag_children();
                right.lemma_bag_children();
                new_root.lemma_bag_children();
                let none = Seq::<Node<D, T>>::empty();
                Node::lemma_bag_push(none, left);
                Node::lemma_bag_push(none.push(left), right);
                assert(new_root.children() =~= none.push(left).push(right));
                assert(Node::bag_of(new_root.children()) =~= left.bag().add(right.bag())) by {
                    broadcast use vstd::multiset::group_multiset_axioms;

                }
                to_multiset_len(new_root.entries());
                r1.lemma_wf_count(h);
            }
            self.root = Some(new_root);
            self.height += 1;
        } else {
            proof {
                r1.lemma_wf_count(h);
            }
            self.root = Some(root);
        }
        self.length += 1;
        proof {
            if old(self).root is None {
                assert(r1.children() =~= seq![Node { rect: rect, data: Data::Item(data) }]);
                crate::rect::lemma_view_injective(r1.rect, rect);
            }
            assert(old(self).took(r1, rect, data));
            assert(self.stands_on(r1, h));
        }
    }

    /// Whether an entry with the rectangle `rect` can be added: the tree has
    /// an axis, the rectangle is valid, the span that would bound the tree
    /// is measurable, and the count can grow.
    pub open(crate) spec fn admits(self, rect: Rect<D>) -> bool {
        &&& D > 0
        &&& rect@.valid()
        &&& self.reach(rect).measurable()
        &&& self.spec_len() < usize::MAX
    }

    /// Adds the entry `(rect, data)` if the tree admits it, and hands it
    /// back untouched if not.
    pub fn try_insert(&mut self, rect: Rect<D>, data: T) -> (res: Result<(), (Rect<D>, T)>)
        requires
            old(self).wf(),
        ensures
            final(self).wf(),
            res is Ok <==> old(self).admits(rect),
            res matches Err(e) ==> e == (rect, data) && *final(self) == *old(self),
            res is Ok ==> final(self)@.to_multiset() == old(self)@.to_multiset().insert(
                (rect, data),
            ),
            res is Ok ==> final(self).spec_len() == old(self).spec_len() + 1,
            res is Ok ==> final(self).bounds() is Some && final(self).bounds().unwrap()@
                == old(self).reach(rect),
    {
        if D == 0 || self.length == usize::MAX || !rect.is_valid() {
            return Err((rect, data));
        }
        let mut reach = rect;
        match &self.root {
            Some(root) => {
                reach = root.rect;
                reach.expand(&rect);
            },
            None => {},
        }
        if !reach.is_measurable() {
            return Err((rect, data));
        }
        self.insert(rect, data);
        Ok(())
    }

    /// The entries that answer a removal of `data` at `rect`: those whose
    /// rectangle intersects `rect` and whose payload equals `data`, in
    /// depth-first order.
    pub open(crate) spec fn hits(self, rect: Rect<D>, data: T) -> Seq<(Rect<D>, T)> {
        self@.filter(Node::matching(rect, data))
    }

    /// Removes the first entry, in depth-first order, whose rectangle
    /// intersects `rect` and whose payload equals `data`, and returns it.
    /// Branches left with too few children are dissolved and their entries
    /// inserted again; a root left with a single child above the lowest
    /// level gives way to that child. Where no entry answers, nothing is
    /// changed.
    pub fn remove(&mut self, rect: Rect<D>, data: &T) -> (res: Option<(Rect<D>, T)>)
        requires
            T::obeys_eq_spec(),
            old(self).wf(),
        ensures
            final(self).wf(),
            res is Some <==> old(self).hits(rect, *data).len() > 0,
            res matches Some(e) ==> e == old(self).hits(rect, *data)[0],
            res matches Some(e) ==> final(self)@.to_multiset().insert(e)
                == old(self)@.to_multiset(),
            res is Some ==> final(self).spec_len() + 1 == old(self).spec_len(),
            res is None ==> *final(self) == *old(self),
            final(self).bounds() matches Some(r) ==> old(self).bounds() is Some
                && old(self).bounds().unwrap()@.contains(r@),
    {
        let ghost h = self.height as nat;
        match self.root.take() {
            None => None,
            Some(mut root) => {
                let ghost r0 = root;
                let ghost span = r0.rect@;
                let mut reinsert: Vec<(Rect<D>, T)> = Vec::new();
                let (removed, recalced) = root.remove(&rect, data, &mut reinsert, self.height);
                let ghost r1 = root;
                if removed.is_none() {
                    self.root = Some(root);
                    return None;
                }
                let ghost e = removed.unwrap();
                proof {
                    broadcast use vstd::multiset::group_multiset_axioms;

                    assert(reinsert@.skip(0) =~= reinsert@);
                    to_multiset_len(reinsert@);
                    to_multiset_len(r0.entries());
                    to_multiset_len(r1.entries());
                    assert(r1.bag().add(reinsert@.to_multiset()).insert(e).len()
                        == r1.entries().len() + reinsert@.len() + 1);
                    r1.lemma_wf_valid(h);
                    if r1.children().len() > 0 {
                        r1.lemma_wf_count(h);
                        lemma_inner_measurable(span, r1.rect@);
                    }
                }
                self.length -= reinsert.len() + 1;
                if self.length == 0 {
                    self.root = None;
                } else if self.height > 0 && root.len() == 1 {
                    let mut nodes = root.take_nodes();
                    let mut n = nodes.pop().unwrap();
                    let ghost n0 = n;
                    proof {
                        let kids = r1.children();
                        assert(n0 == kids[0]);
                        assert(n0.fits_under(h));
                        assert(Node::<D, T>::spans(kids)[0] == n0.rect@);
                        let none = Seq::<Node<D, T>>::empty();
                        assert(kids =~= none.push(n0));
                        Node::lemma_bag_push(none, n0);
                        assert(Node::entries_of(none) =~= Seq::empty());
                        assert(Node::entries_of(kids) =~= n0.entries());
                        n0.lemma_wf_valid((h - 1) as nat);
                    }
                    n.recalc();
                    proof {
                        let parts = Node::<D, T>::spans(n0.children());
                        assert forall|j: int| 0 <= j < parts.len() implies n0.rect@.contains(
                            #[trigger] parts[j],
                        ) by {}
                        lemma_tight_within(n0.rect@, n.rect@, parts);
                        lemma_contains_trans(r1.rect@, n0.rect@, n.rect@);
                        lemma_contains_trans(span, r1.rect@, n.rect@);
                        n.lemma_wf_valid((h - 1) as nat);
                        lemma_inner_measurable(span, n.rect@);
                    }
                    self.height -= 1;
                    self.root = Some(n);
                } else {
                    if recalced {
                        root.recalc();
                        proof {
                            let parts = Node::<D, T>::spans(r1.children());
                            assert forall|j: int| 0 <= j < parts.len() implies r1.rect@.contains(
                                #[trigger] parts[j],
                            ) by {}
                            lemma_tight_within(r1.rect@, root.rect@, parts);
                            lemma_contains_trans(span, r1.rect@, root.rect@);
                            root.lemma_wf_valid(h);
                            lemma_inner_measurable(span, root.rect@);
                        }
                    }
                    self.root = Some(root);
                }
                proof {
                    broadcast use vstd::multiset::group_multiset_axioms;

                    if self.root is None {
                        assert(self@ =~= r1.entries());
                    }
                    assert(self@.to_multiset() =~= r1.bag());
                }
                while reinsert.len() > 0
                    invariant
                        D > 0,
                        self.wf(),
                        span.measurable(),
                        span.shaped(D as nat),
                        Node::all_within(reinsert@, span),
                        self.root matches Some(r) ==> span.contains(r.rect@),
                        self@.to_multiset().add(reinsert@.to_multiset()).insert(e)
                            == old(self)@.to_multiset(),
                        self.length + reinsert@.len() + 1 == old(self).length,
                    decreases reinsert.len(),
                {
                    let ghost before = reinsert@;
                    let ghost tree = *self;
                    let item = reinsert.pop().unwrap();
                    let (r, d) = item;
                    proof {
                        broadcast use vstd::multiset::group_multiset_axioms;

                        assert(reinsert@ =~= before.drop_last());
                        lemma_drop_last_bag(before);
                        assert(item == before[before.len() - 1]);
                        assert(span.contains(r@) && r@.valid());
                        lemma_union_contains(r@, r@);
                        if tree.root is Some {
                            let n = tree.root.unwrap();
                            n.lemma_wf_valid(tree.height as nat);
                            lemma_union_contains(n.rect@, r@);
                            lemma_union_within(span, n.rect@, r@);
                        }
                        lemma_inner_measurable(span, self.reach(r));
                        assert forall|k: int| 0 <= k < reinsert@.len() implies span.contains(
                            (#[trigger] reinsert@[k]).0@,
                        ) && reinsert@[k].0@.valid() by {
                            assert(reinsert@[k] == before[k]);
                        }
                    }
                    self.insert(r, d);
                    proof {
                        broadcast use vstd::multiset::group_multiset_axioms;

                        assert(self@.to_multiset().add(reinsert@.to_multiset()).insert(e)
                            =~= tree@.to_multiset().add(before.to_multiset()).insert(e));
                    }
                }
                proof {
                    broadcast use vstd::multiset::group_multiset_axioms;

                    to_multiset_len(reinsert@);
                    assert(self@.to_multiset().insert(e) =~= old(self)@.to_multiset());
                }
                removed
            },
        }
    }
}

} // verus!
