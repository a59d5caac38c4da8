//! The nodes of the tree: leaves that hold one payload, and branches that
//! hold child nodes under the rectangle that tightly bounds them.

use crate::order::compare;
use crate::rect::{lemma_tight_push, lemma_tight_single, Rect, Span};
use std::cmp::Ordering;
use vstd::multiset::Multiset;
use vstd::pervasive::unreached;
use vstd::prelude::*;

verus! {

/// A branch that reaches this many children is split.
pub const MAX_ITEMS: usize = 64;

/// A branch other than the root that falls below this many children is
/// dissolved, and its entries are inserted again.
pub const MIN_ITEMS: usize = MAX_ITEMS * 10 / 100;

/// What a node holds: one payload, or child nodes.
pub enum Data<const D: usize, T> {
    Item(T),
    Nodes(Vec<Node<D, T>>),
}

/// A node of the tree with its bounding rectangle.
pub struct Node<const D: usize, T> {
    pub rect: Rect<D>,
    pub data: Data<D, T>,
}

impl<const D: usize, T> Node<D, T> {
    /// The node holds child nodes.
    pub open spec fn is_branch(self) -> bool {
        self.data is Nodes
    }

    /// The node holds a payload.
    pub open spec fn is_item(self) -> bool {
        self.data is Item
    }

    /// The child nodes of a branch, in order; none for a leaf.
    pub open spec fn children(self) -> Seq<Node<D, T>> {
        match self.data {
            Data::Nodes(v) => v@,
            Data::Item(_) => Seq::empty(),
        }
    }

    /// The payload of a leaf.
    pub open spec fn payload(self) -> T
        recommends
            self.is_item(),
    {
        match self.data {
            Data::Item(t) => t,
            Data::Nodes(_) => arbitrary(),
        }
    }

    /// The views of the rectangles of `s`, in order.
    pub open spec fn spans(s: Seq<Node<D, T>>) -> Seq<Span> {
        Seq::new(s.len(), |i: int| s[i].rect@)
    }

    /// The entries stored under the node, in depth-first order.
    pub open spec fn entries(self) -> Seq<(Rect<D>, T)>
        decreases self,
    {
        match self.data {
            Data::Item(t) => seq![(self.rect, t)],
            Data::Nodes(v) => Self::entries_of(v@),
        }
    }

    /// The entries stored under the nodes of `s`, in depth-first order.
    pub open spec fn entries_of(s: Seq<Node<D, T>>) -> Seq<(Rect<D>, T)>
        decreases s,
    {
        if s.len() == 0 {
            Seq::empty()
        } else {
            Self::entries_of(s.drop_last()) + s.last().entries()
        }
    }

    /// The entries stored under the node in the order in which dissolving
    /// the node hands them out: each run of children from the last to the
    /// first.
    pub open spec fn drained(self) -> Seq<(Rect<D>, T)>
        decreases self,
    {
        match self.data {
            Data::Item(t) => seq![(self.rect, t)],
            Data::Nodes(v) => Self::drained_of(v@),
        }
    }

    /// The entries stored under the nodes of `s`, from the last node to the
    /// first.
    pub open spec fn drained_of(s: Seq<Node<D, T>>) -> Seq<(Rect<D>, T)>
        decreases s,
    {
        if s.len() == 0 {
            Seq::empty()
        } else {
            s.last().drained() + Self::drained_of(s.drop_last())
        }
    }

    /// The entries stored under the node, without their order.
    pub open spec fn bag(self) -> Multiset<(Rect<D>, T)> {
        self.entries().to_multiset()
    }

    /// The entries stored under the nodes of `s`, without their order.
    pub open spec fn bag_of(s: Seq<Node<D, T>>) -> Multiset<(Rect<D>, T)>
        decreases s.len(),
    {
        if s.len() == 0 {
            Multiset::empty()
        } else {
            Self::bag_of(s.drop_last()).add(s.last().bag())
        }
    }

    /// The node may stand as a child of a branch that is `h` levels above the
    /// leaves: a leaf with a valid rectangle where `h` is 0, else a
    /// well-formed branch with at least `MIN_ITEMS` and fewer than
    /// `MAX_ITEMS` children.
    pub open spec fn fits_under(self, h: nat) -> bool
        decreases h, 0nat,
    {
        if h == 0 {
            self.is_item() && self.rect@.valid()
        } else {
            &&& self.wf((h - 1) as nat)
            &&& MIN_ITEMS <= self.children().len() < MAX_ITEMS
        }
    }

    /// The node is a branch `h` levels above the leaves whose rectangle
    /// tightly bounds its children, each of which fits under it. Its own
    /// number of children is not bounded here.
    pub open spec fn wf(self, h: nat) -> bool
        decreases h, 1nat,
    {
        &&& self.is_branch()
        &&& self.children().len() > 0 ==> self.rect@.tightly_bounds(
            Self::spans(self.children()),
        )
        &&& forall|i: int|
            0 <= i < self.children().len() ==> (#[trigger] self.children()[i]).fits_under(h)
    }

    /// A branch without children under the rectangle `rect`.
    pub fn new(rect: Rect<D>) -> (node: Node<D, T>)
        ensures
            node.rect == rect,
            node.is_branch(),
            node.children().len() == 0,
    {
        Node { rect: rect, data: Data::Nodes(Vec::with_capacity(MAX_ITEMS)) }
    }

    /// The number of children of a branch.
    pub fn len(&self) -> (n: usize)
        requires
            self.is_branch(),
        ensures
            n == self.children().len(),
    {
        match &self.data {
            Data::Nodes(nodes) => nodes.len(),
            Data::Item(_) => unreached(),
        }
    }

    /// The children of a branch.
    pub fn nodes(&self) -> (nodes: &Vec<Node<D, T>>)
        requires
            self.is_branch(),
        ensures
            nodes@ == self.children(),
    {
        match &self.data {
            Data::Nodes(nodes) => nodes,
            Data::Item(_) => unreached(),
        }
    }

    /// The children of a branch, to be changed in place.
    pub fn nodes_mut(&mut self) -> (nodes: &mut Vec<Node<D, T>>)
        requires
            old(self).is_branch(),
        ensures
            nodes@ == old(self).children(),
            final(self).rect == old(self).rect,
            final(self).is_branch(),
            final(self).children() == final(nodes)@,
    {
        match &mut self.data {
            Data::Nodes(nodes) => nodes,
            Data::Item(_) => unreached(),
        }
    }

    /// The payload of a leaf.
    pub fn item(&self) -> (item: &T)
        requires
            self.is_item(),
        ensures
            *item == self.payload(),
    {
        match &self.data {
            Data::Item(item) => item,
            Data::Nodes(_) => unreached(),
        }
    }

    /// Appends `child` to the children of a branch.
    pub fn push(&mut self, child: Node<D, T>)
        requires
            old(self).is_branch(),
        ensures
            final(self).is_branch(),
            final(self).rect == old(self).rect,
            final(self).children() == old(self).children().push(child),
    {
        match &mut self.data {
            Data::Nodes(nodes) => {
                nodes.push(child);
            },
            Data::Item(_) => {},
        }
    }

    /// Sets the rectangle of a branch to the tight bound of its children. A
    /// branch without children keeps its rectangle.
    pub fn recalc(&mut self)
        requires
            old(self).is_branch(),
        ensures
            final(self).data == old(self).data,
            old(self).children().len() == 0 ==> final(self).rect == old(self).rect,
            old(self).children().len() > 0 ==> final(self).rect@.tightly_bounds(
                Self::spans(old(self).children()),
            ),
    {
        let ghost parts = Self::spans(self.children());
        let mut rect = self.rect;
        match &self.data {
            Data::Nodes(nodes) => {
                if nodes.len() == 0 {
                    return ;
                }
                rect = nodes[0].rect;
                proof {
                    assert(parts.take(1) =~= seq![parts[0]]);
                    lemma_tight_single(parts.take(1));
                }
                let mut i: usize = 1;
                while i < nodes.len()
                    invariant
                        1 <= i <= nodes.len(),
                        parts == Self::spans(nodes@),
                        rect@.tightly_bounds(parts.take(i as int)),
                    decreases nodes.len() - i,
                {
                    proof {
                        assert forall|j: int| 0 <= j < parts.take(i as int).len() implies (
                        #[trigger] parts.take(i as int)[j]).shaped(rect@.dim()) by {}
                        lemma_tight_push(rect@, parts.take(i as int), parts[i as int]);
                        assert(parts.take(i as int).push(parts[i as int]) =~= parts.take(i + 1));
                    }
                    rect.expand(&nodes[i].rect);
                    i += 1;
                }
                assert(parts.take(i as int) =~= parts);
            },
            Data::Item(_) => {},
        }
        self.rect = rect;
    }

    /// The rectangle of every child, and its union with `rect`, is
    /// measurable.
    pub open spec fn can_weigh(self, rect: Rect<D>) -> bool {
        forall|i: int|
            0 <= i < self.children().len() ==> {
                let c = #[trigger] self.children()[i];
                c.rect@.measurable() && c.rect@.union(rect@).measurable()
            }
    }

    /// `a` is a strictly better home for `r` than `b`: it grows less, or as
    /// much and is smaller.
    pub open spec fn grows_less(a: Span, b: Span, r: Span) -> bool {
        a.enlargement(r) < b.enlargement(r) || (a.enlargement(r) == b.enlargement(r)
            && a.volume() < b.volume())
    }

    /// `j` is the first of the nodes of `kids` that no other beats as a home
    /// for `r`.
    pub open spec fn least_enlargement_at(kids: Seq<Node<D, T>>, r: Span, j: int) -> bool {
        &&& 0 <= j < kids.len()
        &&& forall|i: int|
            0 <= i < kids.len() ==> !Self::grows_less(
                (#[trigger] kids[i]).rect@,
                kids[j].rect@,
                r,
            )
        &&& forall|i: int|
            0 <= i < j ==> Self::grows_less(kids[j].rect@, (#[trigger] kids[i]).rect@, r)
    }

    /// `j` is the first of the smallest nodes of `kids` that contain `r`.
    pub open spec fn smallest_container_at(kids: Seq<Node<D, T>>, r: Span, j: int) -> bool {
        &&& 0 <= j < kids.len()
        &&& kids[j].rect@.contains(r)
        &&& forall|i: int|
            0 <= i < kids.len() && (#[trigger] kids[i]).rect@.contains(r)
                ==> kids[j].rect@.volume() <= kids[i].rect@.volume()
        &&& forall|i: int|
            0 <= i < j && (#[trigger] kids[i]).rect@.contains(r) ==> kids[j].rect@.volume()
                < kids[i].rect@.volume()
    }

    /// Some node of `kids` contains `r`.
    pub open spec fn some_contains(kids: Seq<Node<D, T>>, r: Span) -> bool {
        exists|i: int| 0 <= i < kids.len() && (#[trigger] kids[i]).rect@.contains(r)
    }

    /// `j` is the child into which an entry with the rectangle `r` goes
    /// down: the first of the smallest children that contain `r`, or, where
    /// none contains it, the first of those that grow least.
    pub open spec fn chosen_at(kids: Seq<Node<D, T>>, r: Span, j: int) -> bool {
        if Self::some_contains(kids, r) {
            Self::smallest_container_at(kids, r, j)
        } else {
            Self::least_enlargement_at(kids, r, j)
        }
    }

    /// The child whose rectangle grows least when widened to hold `rect`;
    /// among equals the one of smaller area, then the first.
    pub fn choose_least_enlargement(&self, rect: &Rect<D>) -> (j: usize)
        requires
            self.is_branch(),
            self.children().len() > 0,
            self.can_weigh(*rect),
        ensures
            Self::least_enlargement_at(self.children(), rect@, j as int),
    {
        let mut j: usize = 0;
        let mut jenlargement: i64 = 0;
        let mut jarea: i64 = 0;
        let nodes = self.nodes();
        let mut i: usize = 0;
        while i < nodes.len()
            invariant
                i <= nodes.len(),
                nodes@ == self.children(),
                nodes@.len() > 0,
                self.can_weigh(*rect),
                i == 0 ==> j == 0,
                i > 0 ==> j < i,
                i > 0 ==> jenlargement == nodes@[j as int].rect@.enlargement(rect@),
                i > 0 ==> jarea == nodes@[j as int].rect@.volume(),
                forall|k: int|
                    0 <= k < i ==> !Self::grows_less(
                        (#[trigger] nodes@[k]).rect@,
                        nodes@[j as int].rect@,
                        rect@,
                    ),
                forall|k: int|
                    0 <= k < j ==> Self::grows_less(
                        nodes@[j as int].rect@,
                        (#[trigger] nodes@[k]).rect@,
                        rect@,
                    ),
            decreases nodes.len() - i,
        {
            let ghost c = nodes@[i as int];
            assert(c == self.children()[i as int]);
            assert(c.rect@.measurable() && c.rect@.union(rect@).measurable());
            let uarea = nodes[i].rect.unioned_area(rect);
            let area = nodes[i].rect.area();
            proof {
                crate::rect::lemma_volume_bounds(c.rect@, D as nat);
                crate::rect::lemma_volume_bounds(c.rect@.union(rect@), D as nat);
            }
            let enlargement = uarea - area;
            if i == 0 || enlargement < jenlargement || (enlargement == jenlargement && area
                < jarea) {
                j = i;
                jenlargement = enlargement;
                jarea = area;
            }
            i += 1;
        }
        j
    }

    /// The child into which an entry with the rectangle `rect` descends: the
    /// smallest child that contains `rect`, the first of them among equals;
    /// where none contains it, the child of least enlargement.
    pub fn choose_subtree(&self, rect: &Rect<D>) -> (index: usize)
        requires
            self.is_branch(),
            self.children().len() > 0,
            self.can_weigh(*rect),
        ensures
            Self::chosen_at(self.children(), rect@, index as int),
    {
        let mut index: usize = 0;
        let nodes = self.nodes();
        let mut found = false;
        let mut narea: i64 = 0;
        let mut i: usize = 0;
        while i < nodes.len()
            invariant
                i <= nodes.len(),
                nodes@ == self.children(),
                self.can_weigh(*rect),
                !found ==> index == 0,
                !found ==> forall|k: int|
                    0 <= k < i ==> !(#[trigger] nodes@[k]).rect@.contains(rect@),
                found ==> index < i,
                found ==> narea == nodes@[index as int].rect@.volume(),
                found ==> nodes@[index as int].rect@.contains(rect@),
                found ==> forall|k: int|
                    0 <= k < i && (#[trigger] nodes@[k]).rect@.contains(rect@)
                        ==> nodes@[index as int].rect@.volume() <= nodes@[k].rect@.volume(),
                found ==> forall|k: int|
                    0 <= k < index && (#[trigger] nodes@[k]).rect@.contains(rect@)
                        ==> nodes@[index as int].rect@.volume() < nodes@[k].rect@.volume(),
            decreases nodes.len() - i,
        {
            if nodes[i].rect.contains(rect) {
                assert(nodes@[i as int] == self.children()[i as int]);
                let area = nodes[i].rect.area();
                if !found || area < narea {
                    narea = area;
                    index = i;
                    found = true;
                }
            }
            i += 1;
        }
        if !found {
            index = self.choose_least_enlargement(rect);
        }
        index
    }

    /// The coordinate by which the node is ordered: its upper bound on
    /// `axis` where `by_max`, else its lower bound.
    pub open spec fn edge(self, axis: usize, by_max: bool) -> int {
        if by_max {
            self.rect@.hi[axis as int]
        } else {
            self.rect@.lo[axis as int]
        }
    }

    /// The key by which the node is sorted: its edge, negated for a
    /// descending order.
    pub open spec fn sort_key(self, axis: usize, by_max: bool, descending: bool) -> int {
        if descending {
            -self.edge(axis, by_max)
        } else {
            self.edge(axis, by_max)
        }
    }

    /// The keys of `s` never decrease.
    pub open spec fn sorted_on(
        s: Seq<Node<D, T>>,
        axis: usize,
        by_max: bool,
        descending: bool,
    ) -> bool {
        forall|i: int, j: int|
            0 <= i < j < s.len() ==> (#[trigger] s[i]).sort_key(axis, by_max, descending) <= (
            #[trigger] s[j]).sort_key(axis, by_max, descending)
    }

    /// The coordinate by which the node is ordered.
    pub fn edge_of(&self, axis: usize, by_max: bool) -> (k: i64)
        requires
            axis < D,
        ensures
            k == self.edge(axis, by_max),
    {
        if by_max {
            self.rect.max[axis]
        } else {
            self.rect.min[axis]
        }
    }

    /// How `a` stands to `b` in the order of their sort keys.
    pub fn order_nodes(
        a: &Node<D, T>,
        b: &Node<D, T>,
        axis: usize,
        by_max: bool,
        descending: bool,
    ) -> (r: Ordering)
        requires
            axis < D,
        ensures
            a.sort_key(axis, by_max, descending) < b.sort_key(axis, by_max, descending) <==> r
                == Ordering::Less,
            a.sort_key(axis, by_max, descending) > b.sort_key(axis, by_max, descending) <==> r
                == Ordering::Greater,
    {
        let ka = a.edge_of(axis, by_max);
        let kb = b.edge_of(axis, by_max);
        if descending {
            compare(kb, ka)
        } else {
            compare(ka, kb)
        }
    }

    /// Sorts the children of a branch by their lower bound on `axis`.
    pub fn sort_by_axis(&mut self, axis: usize)
        requires
            old(self).is_branch(),
            axis < D,
        ensures
            final(self).is_branch(),
            final(self).rect == old(self).rect,
            final(self).children().to_multiset() == old(self).children().to_multiset(),
            Self::sorted_on(final(self).children(), axis, false, false),
    {
        match &mut self.data {
            Data::Nodes(nodes) => {
                sort_nodes(nodes, axis, false, false);
            },
            Data::Item(_) => {},
        }
    }

    /// Takes the children out of a branch and leaves it without any.
    pub fn take_nodes(&mut self) -> (nodes: Vec<Node<D, T>>)
        requires
            old(self).is_branch(),
        ensures
            nodes@ == old(self).children(),
            final(self).is_branch(),
            final(self).children().len() == 0,
            final(self).rect == old(self).rect,
    {
        let mut out: Vec<Node<D, T>> = Vec::new();
        match &mut self.data {
            Data::Nodes(nodes) => {
                core::mem::swap(nodes, &mut out);
            },
            Data::Item(_) => {},
        }
        out
    }
}

/// Sorts `nodes` by their sort keys with `sort_by` of the standard library,
/// which orders a slice by the comparison function it is given and keeps
/// every element. The comparison handed to it is [`Node::order_nodes`]. That
/// the sort keeps equal elements in their order is not stated.
#[verifier::external_body]
pub(crate) fn sort_nodes<const D: usize, T>(
    nodes: &mut Vec<Node<D, T>>,
    axis: usize,
    by_max: bool,
    descending: bool,
)
    requires
        axis < D,
    ensures
        final(nodes)@.to_multiset() == old(nodes)@.to_multiset(),
        Node::sorted_on(final(nodes)@, axis, by_max, descending),
{
    nodes.sort_by(|a, b| Node::order_nodes(a, b, axis, by_max, descending));
}

} // verus!
