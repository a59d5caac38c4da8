//! Lazy traversals of the tree: every entry, or the entries that intersect
//! a rectangle, one at a time in depth-first order.

use crate::node::{Data, Node};
use crate::rect::Rect;
use crate::seqs::{lemma_filter_empty, lemma_filter_single};
use crate::tree::RTree;
use vstd::prelude::*;

verus! {

/// An entry as a traversal hands it out.
pub struct IterItem<'a, const D: usize, T> {
    pub rect: Rect<D>,
    pub data: &'a T,
    pub dist: i64,
}

/// A place in a traversal: the children of one branch, and how many of them
/// have been dealt with.
pub struct StackNode<'a, const D: usize, T> {
    pub nodes: &'a Vec<Node<D, T>>,
    pub index: usize,
}

impl<const D: usize, T> Node<D, T> {
    /// The number of nodes in the subtree of the node.
    pub open spec fn weight(self) -> nat
        decreases self,
    {
        match self.data {
            Data::Item(_) => 1,
            Data::Nodes(v) => 1 + Self::weight_of(v@),
        }
    }

    /// The number of nodes in the subtrees of the nodes of `s`.
    pub open spec fn weight_of(s: Seq<Node<D, T>>) -> nat
        decreases s,
    {
        if s.len() == 0 {
            0
        } else {
            Self::weight_of(s.drop_last()) + s.last().weight()
        }
    }

    /// The weight of a run of nodes is that of its first node and of the
    /// rest.
    pub proof fn lemma_weight_first(s: Seq<Node<D, T>>)
        requires
            s.len() > 0,
        ensures
            Self::weight_of(s) == s[0].weight() + Self::weight_of(s.skip(1)),
        decreases s.len(),
    {
        if s.len() == 1 {
            assert(s.drop_last() =~= Seq::empty());
            assert(s.skip(1) =~= Seq::empty());
            assert(Self::weight_of(s.drop_last()) == 0);
            assert(Self::weight_of(s.skip(1)) == 0);
        } else {
            Self::lemma_weight_first(s.drop_last());
            assert(s.skip(1).drop_last() =~= s.drop_last().skip(1));
            assert(s.skip(1).last() == s.last());
            assert(s.drop_last()[0] == s[0]);
        }
    }

    /// The entries under a run of nodes are those of its first node and
    /// those of the rest.
    pub proof fn lemma_entries_first(s: Seq<Node<D, T>>)
        requires
            s.len() > 0,
        ensures
            Self::entries_of(s) == s[0].entries() + Self::entries_of(s.skip(1)),
    {
        Self::lemma_entries_split(s, 0);
        assert(s.take(0) =~= Seq::empty());
        assert(Self::entries_of(s.take(0)) =~= Seq::empty());
        assert(Self::entries_of(s.take(0)) + s[0].entries() =~= s[0].entries());
    }
}

impl<'a, const D: usize, T> StackNode<'a, D, T> {
    /// The children that are still to be dealt with.
    pub open spec fn rest(self) -> Seq<Node<D, T>> {
        self.nodes@.skip(self.index as int)
    }

    /// The entries that a stack of places, the last of them on top, still
    /// has to give: those under the rest of the top place first.
    pub open spec fn pending(frames: Seq<StackNode<'a, D, T>>) -> Seq<(Rect<D>, T)>
        decreases frames.len(),
    {
        if frames.len() == 0 {
            Seq::empty()
        } else {
            Node::entries_of(frames.last().rest()) + Self::pending(frames.drop_last())
        }
    }

    /// The number of nodes that a stack of places still has to visit.
    pub open spec fn load(frames: Seq<StackNode<'a, D, T>>) -> nat
        decreases frames.len(),
    {
        if frames.len() == 0 {
            0
        } else {
            Node::weight_of(frames.last().rest()) + Self::load(frames.drop_last())
        }
    }

    /// No place of the stack has dealt with more children than there are.
    pub open spec fn in_range(frames: Seq<StackNode<'a, D, T>>) -> bool {
        forall|k: int|
            0 <= k < frames.len() ==> (#[trigger] frames[k]).index <= frames[k].nodes@.len()
    }

    /// Every place of the stack holds the children of a well-formed branch:
    /// nodes that all fit under a branch of one level.
    pub open spec fn levelled(frames: Seq<StackNode<'a, D, T>>) -> bool {
        forall|k: int| 0 <= k < frames.len() ==> Self::has_level(#[trigger] frames[k])
    }

    /// The children of the place all fit under a branch of one level.
    pub open spec fn has_level(frame: StackNode<'a, D, T>) -> bool {
        exists|h: nat| Self::fitting(frame, h)
    }

    /// Every child of the place fits under a branch `h` levels above the
    /// leaves.
    pub open spec fn fitting(frame: StackNode<'a, D, T>, h: nat) -> bool {
        forall|i: int| 0 <= i < frame.nodes@.len() ==> (#[trigger] frame.nodes@[i]).fits_under(h)
    }

    /// A stack stays levelled when places are taken off its top, when its
    /// top place gives way to `frame`, and when `frame` is put on top,
    /// where the children of `frame` fit under a branch of level `h`.
    pub proof fn lemma_levelled(
        before: Seq<StackNode<'a, D, T>>,
        after: Seq<StackNode<'a, D, T>>,
        frame: StackNode<'a, D, T>,
        h: nat,
    )
        requires
            Self::levelled(before),
            after.len() <= before.len() + 1,
            forall|k: int|
                0 <= k < after.len() ==> (k < before.len() && #[trigger] after[k] == before[k]) || (
                after[k] == frame && Self::fitting(frame, h)),
        ensures
            Self::levelled(after),
    {
        assert forall|k: int| 0 <= k < after.len() implies Self::has_level(
            #[trigger] after[k],
        ) by {
            if k < before.len() && after[k] == before[k] {
                assert(Self::has_level(before[k]));
            }
        }
    }

    /// The stack with which a traversal starts: one place for the children
    /// of the root, none for an empty tree.
    pub fn new_stack(root: &'a Option<Node<D, T>>, height: usize) -> (stack: Vec<
        StackNode<'a, D, T>,
    >)
        requires
            height < usize::MAX,
            root matches Some(r) ==> r.is_branch(),
        ensures
            Self::in_range(stack@),
            root is None ==> stack@.len() == 0,
            root matches Some(r) ==> stack@.len() == 1 && stack@[0].nodes@ == r.children()
                && stack@[0].index == 0 && Self::pending(stack@) == r.entries(),
    {
        let mut stack: Vec<StackNode<'a, D, T>> = Vec::with_capacity(height + 1);
        match root {
            Some(root) => {
                let nodes = root.nodes();
                stack.push(StackNode { nodes: nodes, index: 0 });
                proof {
                    assert(stack@.drop_last() =~= Seq::empty());
                    assert(stack@.last().rest() =~= root.children());
                    assert(Self::pending(stack@.drop_last()) =~= Seq::empty());
                    assert(Self::pending(stack@) =~= root.entries());
                }
            },
            None => {},
        }
        stack
    }

    /// Putting a place on top of the stack puts its entries first.
    pub proof fn lemma_push(frames: Seq<StackNode<'a, D, T>>, top: StackNode<'a, D, T>)
        ensures
            Self::pending(frames.push(top)) == Node::entries_of(top.rest()) + Self::pending(
                frames,
            ),
            Self::load(frames.push(top)) == Node::weight_of(top.rest()) + Self::load(frames),
    {
        assert(frames.push(top).drop_last() =~= frames);
    }

    /// What the stack has to give once the top place has moved on by one
    /// child, or has been replaced by another place.
    pub proof fn lemma_replace_top(frames: Seq<StackNode<'a, D, T>>, top: StackNode<'a, D, T>)
        requires
            frames.len() > 0,
        ensures
            Self::pending(frames.update(frames.len() - 1, top)) == Node::entries_of(top.rest())
                + Self::pending(frames.drop_last()),
            Self::load(frames.update(frames.len() - 1, top)) == Node::weight_of(top.rest())
                + Self::load(frames.drop_last()),
    {
        let n = frames.len() - 1;
        assert(frames.update(n, top).drop_last() =~= frames.drop_last());
    }
}

/// A traversal that gives every entry of a tree.
pub struct ScanIterator<'a, const D: usize, T> {
    pub stack: Vec<StackNode<'a, D, T>>,
}

impl<'a, const D: usize, T> ScanIterator<'a, D, T> {
    /// The entries that the traversal has still to give, in order.
    pub open spec fn remaining(self) -> Seq<(Rect<D>, T)> {
        StackNode::pending(self.stack@)
    }

    /// The traversal is in a sound state.
    pub open spec fn wf(self) -> bool {
        StackNode::in_range(self.stack@)
    }

    /// A traversal of the tree with the root `root`.
    pub fn new(root: &'a Option<Node<D, T>>, height: usize) -> (it: ScanIterator<'a, D, T>)
        requires
            height < usize::MAX,
            root matches Some(r) ==> r.is_branch(),
        ensures
            it.wf(),
            root is None ==> it.remaining().len() == 0,
            root matches Some(r) ==> it.remaining() == r.entries(),
    {
        ScanIterator { stack: StackNode::new_stack(root, height) }
    }

    /// The next entry in depth-first order, or `None` when every entry has
    /// been given.
    pub fn next(&mut self) -> (res: Option<IterItem<'a, D, T>>)
        requires
            old(self).wf(),
        ensures
            final(self).wf(),
            old(self).remaining().len() == 0 ==> res is None && final(self).remaining().len()
                == 0,
            old(self).remaining().len() > 0 ==> res is Some && (
                res.unwrap().rect,
                *res.unwrap().data,
            ) == old(self).remaining()[0] && res.unwrap().dist == 0 && final(self).remaining()
                == old(self).remaining().skip(1),
    {
        loop
            invariant
                self.wf(),
                self.remaining() == old(self).remaining(),
            decreases StackNode::load(self.stack@), self.stack@.len(),
        {
            let n = self.stack.len();
            if n == 0 {
                return None;
            }
            let ghost frames = self.stack@;
            let nodes: &'a Vec<Node<D, T>> = self.stack[n - 1].nodes;
            let i = self.stack[n - 1].index;
            let ghost top = frames[n - 1];
            if i < nodes.len() {
                let ghost node = nodes@[i as int];
                let ghost moved = StackNode { nodes: nodes, index: (i + 1) as usize };
                proof {
                    Node::lemma_entries_first(top.rest());
                    Node::lemma_weight_first(top.rest());
                    assert(top.rest().skip(1) =~= moved.rest());
                    assert(top.rest()[0] == node);
                    StackNode::lemma_replace_top(frames, moved);
                }
                self.stack[n - 1].index = i + 1;
                assert(self.stack@ =~= frames.update(n - 1, moved));
                match &nodes[i].data {
                    Data::Item(data) => {
                        proof {
                            let e = (node.rect, node.payload());
                            assert(node.entries() =~= seq![e]);
                            assert(self.remaining() =~= old(self).remaining().skip(1));
                        }
                        return Some(IterItem { rect: nodes[i].rect, data: data, dist: 0 });
                    },
                    Data::Nodes(children) => {
                        let ghost below = StackNode { nodes: children, index: 0 };
                        proof {
                            StackNode::lemma_push(self.stack@, below);
                            assert(below.rest() =~= node.children());
                            assert(Node::entries_of(below.rest()) + (Node::entries_of(
                                moved.rest(),
                            ) + StackNode::pending(frames.drop_last())) =~= (node.entries()
                                + Node::entries_of(moved.rest())) + StackNode::pending(
                                frames.drop_last(),
                            ));
                        }
                        self.stack.push(StackNode { nodes: children, index: 0 });
                    },
                }
            } else {
                proof {
                    assert(top.rest() =~= Seq::empty());
                    assert(Node::entries_of(top.rest()) =~= Seq::empty());
                    assert(Node::entries_of(top.rest()) + StackNode::pending(frames.drop_last())
                        =~= StackNode::pending(frames.drop_last()));
                }
                self.stack.pop();
                assert(self.stack@ =~= frames.drop_last());
            }
        }
    }
}

/// A traversal that gives the entries of a tree whose rectangle intersects
/// a given one.
pub struct SearchIterator<'a, const D: usize, T> {
    pub stack: Vec<StackNode<'a, D, T>>,
    pub rect: Rect<D>,
}

impl<'a, const D: usize, T> SearchIterator<'a, D, T> {
    /// The entries that the traversal has still to give, in order.
    pub open spec fn remaining(self) -> Seq<(Rect<D>, T)> {
        StackNode::pending(self.stack@).filter(Node::touching(self.rect))
    }

    /// The traversal is in a sound state.
    pub open spec fn wf(self) -> bool {
        StackNode::in_range(self.stack@) && StackNode::levelled(self.stack@)
    }

    /// A traversal of the tree with the root `root` for the entries whose
    /// rectangle intersects `rect`.
    pub fn new(root: &'a Option<Node<D, T>>, height: usize, rect: Rect<D>) -> (it: SearchIterator<
        'a,
        D,
        T,
    >)
        requires
            height < usize::MAX,
            root matches Some(r) ==> r.wf(height as nat),
        ensures
            it.wf(),
            it.rect == rect,
            root is None ==> it.remaining().len() == 0,
            root matches Some(r) ==> it.remaining() == r.found(rect),
    {
        let stack = StackNode::new_stack(root, height);
        proof {
            match root {
                Some(r) => {
                    assert(StackNode::fitting(stack@[0], height as nat));
                },
                None => {
                    lemma_filter_empty(StackNode::pending(stack@), Node::touching(rect));
                },
            }
        }
        SearchIterator { stack: stack, rect: rect }
    }

    /// The next entry, in depth-first order, whose rectangle intersects the
    /// rectangle of the search, or `None` when every one has been given.
    /// Children whose rectangle does not intersect it are passed over.
    pub fn next(&mut self) -> (res: Option<IterItem<'a, D, T>>)
        requires
            old(self).wf(),
        ensures
            final(self).wf(),
            final(self).rect == old(self).rect,
            old(self).remaining().len() == 0 ==> res is None && final(self).remaining().len()
                == 0,
            old(self).remaining().len() > 0 ==> res is Some && (
                res.unwrap().rect,
                *res.unwrap().data,
            ) == old(self).remaining()[0] && res.unwrap().dist == 0 && final(self).remaining()
                == old(self).remaining().skip(1),
    {
        let ghost pred = Node::<D, T>::touching(self.rect);
        loop
            invariant
                self.wf(),
                self.rect == old(self).rect,
                pred == Node::<D, T>::touching(self.rect),
                self.remaining() == old(self).remaining(),
            decreases StackNode::load(self.stack@), self.stack@.len(),
        {
            let n = self.stack.len();
            if n == 0 {
                proof {
                    lemma_filter_empty(StackNode::pending(self.stack@), pred);
                }
                return None;
            }
            let ghost frames = self.stack@;
            let nodes: &'a Vec<Node<D, T>> = self.stack[n - 1].nodes;
            let i = self.stack[n - 1].index;
            let ghost top = frames[n - 1];
            let ghost below_all = StackNode::pending(frames.drop_last());
            if i < nodes.len() {
                let ghost node = nodes@[i as int];
                let ghost moved = StackNode { nodes: nodes, index: (i + 1) as usize };
                assert(StackNode::has_level(top));
                let ghost h = choose|h: nat| StackNode::fitting(top, h);
                let ghost after = Node::entries_of(moved.rest());
                proof {
                    Node::lemma_entries_first(top.rest());
                    Node::lemma_weight_first(top.rest());
                    assert(top.rest().skip(1) =~= moved.rest());
                    assert(top.rest()[0] == node);
                    StackNode::lemma_replace_top(frames, moved);
                    assert(node.fits_under(h));
                    assert(StackNode::fitting(moved, h));
                    Seq::filter_distributes_over_add(node.entries() + after, below_all, pred);
                    Seq::filter_distributes_over_add(node.entries(), after, pred);
                    Seq::filter_distributes_over_add(after, below_all, pred);
                }
                self.stack[n - 1].index = i + 1;
                assert(self.stack@ =~= frames.update(n - 1, moved));
                proof {
                    StackNode::lemma_levelled(frames, self.stack@, moved, h);
                }
                if nodes[i].rect.intersects(&self.rect) {
                    match &nodes[i].data {
                        Data::Item(data) => {
                            proof {
                                let e = (node.rect, node.payload());
                                assert(node.entries() =~= seq![e]);
                                lemma_filter_single(e, pred);
                                assert(pred(e));
                                assert(old(self).remaining() =~= seq![e] + (after.filter(pred)
                                    + below_all.filter(pred)));
                                assert(self.remaining() =~= old(self).remaining().skip(1));
                            }
                            return Some(IterItem { rect: nodes[i].rect, data: data, dist: 0 });
                        },
                        Data::Nodes(children) => {
                            let ghost below = StackNode { nodes: children, index: 0 };
                            proof {
                                StackNode::lemma_push(self.stack@, below);
                                assert(below.rest() =~= node.children());
                                assert(h > 0);
                                assert(node.wf((h - 1) as nat));
                                assert(StackNode::fitting(below, (h - 1) as nat));
                                assert(Node::entries_of(below.rest()) + (after + below_all) =~= (
                                node.entries() + after) + below_all);
                            }
                            let ghost mid = self.stack@;
                            self.stack.push(StackNode { nodes: children, index: 0 });
                            proof {
                                StackNode::lemma_levelled(
                                    mid,
                                    self.stack@,
                                    below,
                                    (h - 1) as nat,
                                );
                            }
                        },
                    }
                } else {
                    proof {
                        node.lemma_none_found_outside(h, self.rect);
                        assert(node.entries().filter(pred) + after.filter(pred) =~= after.filter(
                            pred,
                        ));
                    }
                }
            } else {
                proof {
                    assert(top.rest() =~= Seq::empty());
                    assert(Node::entries_of(top.rest()) =~= Seq::empty());
                    assert(Node::entries_of(top.rest()) + below_all =~= below_all);
                }
                self.stack.pop();
                assert(self.stack@ =~= frames.drop_last());
                proof {
                    StackNode::lemma_levelled(frames, self.stack@, top, 0);
                }
            }
        }
    }
}

impl<const D: usize, T: PartialEq> RTree<D, T> {
    /// A traversal of every entry, in depth-first order.
    pub fn iter(&self) -> (it: ScanIterator<'_, D, T>)
        requires
            self.wf(),
        ensures
            it.wf(),
            it.remaining() == self@,
    {
        self.scan()
    }

    /// A traversal of every entry, in depth-first order.
    pub fn scan(&self) -> (it: ScanIterator<'_, D, T>)
        requires
            self.wf(),
        ensures
            it.wf(),
            it.remaining() == self@,
    {
        proof {
            self.lemma_height_below_len();
        }
        ScanIterator::new(&self.root, self.height)
    }

    /// A traversal of the entries whose rectangle intersects `rect`, in
    /// depth-first order.
    pub fn search(&self, rect: Rect<D>) -> (it: SearchIterator<'_, D, T>)
        requires
            self.wf(),
        ensures
            it.wf(),
            it.rect == rect,
            it.remaining() == self.found(rect),
    {
        proof {
            self.lemma_height_below_len();
        }
        SearchIterator::new(&self.root, self.height, rect)
    }

    /// A tree has fewer levels than entries, unless it is empty.
    pub proof fn lemma_height_below_len(self)
        requires
            self.wf(),
        ensures
            self.spec_height() < usize::MAX,
            self@.len() > 0 ==> self.spec_height() < self@.len(),
            self.spec_len() == self@.len(),
    {
        match self.root {
            Some(root) => {
                root.lemma_wf_count(self.height as nat);
            },
            None => {},
        }
    }
}

} // verus!
