//! Nearest-first traversal: a priority queue of nodes, ordered by a distance
//! that the caller's function gives to each rectangle.

use crate::iter::IterItem;
use crate::node::{Data, Node};
use crate::rect::Rect;
use crate::tree::RTree;
use vstd::multiset::Multiset;
use vstd::prelude::*;

verus! {

/// The priority queue of the crate `pqueue`: a binary heap that hands out
/// its least item first.
#[verifier::external_type_specification]
#[verifier::external_body]
#[verifier::reject_recursive_types(T)]
pub struct ExQueue<T: PartialOrd>(pqueue::Queue<T>);

/// The items that a queue holds.
pub uninterp spec fn queued(q: pqueue::Queue<(i64, usize)>) -> Multiset<(i64, usize)>;

/// `a` comes no later than `b` in the order of pairs: by the first
/// component, then by the second.
pub open spec fn not_after(a: (i64, usize), b: (i64, usize)) -> bool {
    a.0 < b.0 || (a.0 == b.0 && a.1 <= b.1)
}

/// `Queue::new` of `pqueue`: a queue that holds nothing.
#[verifier::external_body]
fn queue_new() -> (q: pqueue::Queue<(i64, usize)>)
    ensures
        queued(q) == Multiset::<(i64, usize)>::empty(),
{
    pqueue::Queue::new()
}

/// `Queue::push` of `pqueue`: the item is added to what the queue holds.
#[verifier::external_body]
fn queue_push(q: &mut pqueue::Queue<(i64, usize)>, item: (i64, usize))
    ensures
        queued(*final(q)) == queued(*old(q)).insert(item),
{
    q.push(item)
}

/// `Queue::pop` of `pqueue`: an empty queue gives `None` and stays as it is;
/// any other gives up one item that it held and that comes no later than any
/// other it held, in the order of pairs of integers.
#[verifier::external_body]
fn queue_pop(q: &mut pqueue::Queue<(i64, usize)>) -> (r: Option<(i64, usize)>)
    ensures
        queued(*old(q)).len() == 0 ==> r is None && queued(*final(q)) == queued(*old(q)),
        queued(*old(q)).len() > 0 ==> r is Some && queued(*old(q)).count(r.unwrap()) > 0
            && queued(*final(q)) == queued(*old(q)).remove(r.unwrap()) && forall|
            x: (i64, usize),
        | #[trigger] queued(*old(q)).count(x) > 0 ==> not_after(r.unwrap(), x),
{
    q.pop()
}

/// The payload of a leaf by reference; none for a branch.
pub open spec fn payload_of<'a, const D: usize, T>(node: &'a Node<D, T>) -> Option<&'a T> {
    match &node.data {
        Data::Item(t) => Some(t),
        Data::Nodes(_) => None,
    }
}

/// The entries under those of the first `k` nodes whose slot is taken.
pub open spec fn rest_to<const D: usize, T>(
    nodes: Seq<&Node<D, T>>,
    slots: Seq<Option<i64>>,
    k: nat,
) -> Multiset<(Rect<D>, T)>
    decreases k,
{
    if k == 0 {
        Multiset::empty()
    } else if slots[k - 1] is Some {
        rest_to(nodes, slots, (k - 1) as nat).add(nodes[k - 1].bag())
    } else {
        rest_to(nodes, slots, (k - 1) as nat)
    }
}

/// The number of nodes in the subtrees of those of the first `k` nodes whose
/// slot is taken.
pub open spec fn load_to<const D: usize, T>(
    nodes: Seq<&Node<D, T>>,
    slots: Seq<Option<i64>>,
    k: nat,
) -> nat
    decreases k,
{
    if k == 0 {
        0
    } else if slots[k - 1] is Some {
        load_to(nodes, slots, (k - 1) as nat) + nodes[k - 1].weight()
    } else {
        load_to(nodes, slots, (k - 1) as nat)
    }
}

/// One more node with a taken slot adds what is under it; the nodes before
/// it count as before.
pub proof fn lemma_slot_push<const D: usize, T>(
    nodes: Seq<&Node<D, T>>,
    slots: Seq<Option<i64>>,
    node: &Node<D, T>,
    d: i64,
    k: nat,
)
    requires
        nodes.len() == slots.len(),
        k <= nodes.len(),
    ensures
        rest_to(nodes.push(node), slots.push(Some(d)), k) == rest_to(nodes, slots, k),
        load_to(nodes.push(node), slots.push(Some(d)), k) == load_to(nodes, slots, k),
        k == nodes.len() ==> rest_to(nodes.push(node), slots.push(Some(d)), k + 1) == rest_to(
            nodes,
            slots,
            k,
        ).add(node.bag()),
        k == nodes.len() ==> load_to(nodes.push(node), slots.push(Some(d)), k + 1) == load_to(
            nodes,
            slots,
            k,
        ) + node.weight(),
    decreases k,
{
    if k > 0 {
        lemma_slot_push(nodes, slots, node, d, (k - 1) as nat);
        assert(nodes.push(node)[k - 1] == nodes[k - 1]);
        assert(slots.push(Some(d))[k - 1] == slots[k - 1]);
    }
    if k == nodes.len() {
        let np = nodes.push(node);
        let sp = slots.push(Some(d));
        assert(np[k as int] == node);
        assert(sp[k as int] == Some(d));
        assert(((k + 1) - 1) as nat == k);
        assert(rest_to(np, sp, k + 1) == rest_to(np, sp, k).add(np[k as int].bag()));
        assert(load_to(np, sp, k + 1) == load_to(np, sp, k) + np[k as int].weight());
    }
}

/// Freeing the slot of a node takes away what is under it.
pub proof fn lemma_slot_clear<const D: usize, T>(
    nodes: Seq<&Node<D, T>>,
    slots: Seq<Option<i64>>,
    id: int,
    k: nat,
)
    requires
        nodes.len() == slots.len(),
        0 <= id < nodes.len(),
        slots[id] is Some,
        k <= nodes.len(),
    ensures
        k <= id ==> rest_to(nodes, slots.update(id, None), k) == rest_to(nodes, slots, k),
        k <= id ==> load_to(nodes, slots.update(id, None), k) == load_to(nodes, slots, k),
        k > id ==> rest_to(nodes, slots.update(id, None), k).add(nodes[id].bag()) == rest_to(
            nodes,
            slots,
            k,
        ),
        k > id ==> load_to(nodes, slots.update(id, None), k) + nodes[id].weight() == load_to(
            nodes,
            slots,
            k,
        ),
    decreases k,
{
    broadcast use vstd::multiset::group_multiset_axioms;

    if k > 0 {
        lemma_slot_clear(nodes, slots, id, (k - 1) as nat);
        let cleared = slots.update(id, None);
        if k - 1 == id {
            assert(cleared[k - 1] is None);
        } else {
            assert(cleared[k - 1] == slots[k - 1]);
            if k > id {
                assert(rest_to(nodes, cleared, k).add(nodes[id].bag()) =~= rest_to(
                    nodes,
                    slots,
                    k,
                ));
            }
        }
    }
}

/// Where no slot is taken, nothing is left.
pub proof fn lemma_slots_free<const D: usize, T>(
    nodes: Seq<&Node<D, T>>,
    slots: Seq<Option<i64>>,
    k: nat,
)
    requires
        nodes.len() == slots.len(),
        k <= nodes.len(),
        forall|id: int| 0 <= id < slots.len() ==> (#[trigger] slots[id]) is None,
    ensures
        rest_to(nodes, slots, k) == Multiset::<(Rect<D>, T)>::empty(),
        load_to(nodes, slots, k) == 0,
    decreases k,
{
    if k > 0 {
        lemma_slots_free(nodes, slots, (k - 1) as nat);
        assert(slots[k - 1] is None);
    }
}

/// The queue contents `q` are exactly the pairs of a distance and a place
/// whose slot holds that distance.
pub open spec fn matched(q: Multiset<(i64, usize)>, slots: Seq<Option<i64>>) -> bool {
    forall|x: (i64, usize)| #[trigger]
        q.count(x) == if x.1 < slots.len() && slots[x.1 as int] == Some(x.0) {
            1nat
        } else {
            0nat
        }
}

/// An empty queue matches no slots at all.
pub proof fn lemma_matched_new()
    ensures
        matched(Multiset::<(i64, usize)>::empty(), Seq::<Option<i64>>::empty()),
{
    broadcast use vstd::multiset::group_multiset_axioms;

}

/// A pair pushed with the next free place matches the slots with its
/// distance appended.
pub proof fn lemma_matched_push(q: Multiset<(i64, usize)>, slots: Seq<Option<i64>>, d: i64)
    requires
        matched(q, slots),
        slots.len() <= usize::MAX,
    ensures
        matched(q.insert((d, slots.len() as usize)), slots.push(Some(d))),
{
    broadcast use vstd::multiset::group_multiset_axioms;

    let id = slots.len() as usize;
    let after = slots.push(Some(d));
    assert forall|x: (i64, usize)| #[trigger]
        q.insert((d, id)).count(x) == if x.1 < after.len() && after[x.1 as int] == Some(x.0) {
            1nat
        } else {
            0nat
        } by {
        assert(q.count(x) == if x.1 < slots.len() && slots[x.1 as int] == Some(x.0) {
            1nat
        } else {
            0nat
        });
    }
}

/// A pair that the queue holds stands in its slot; once it is popped the
/// queue matches the slots with that one freed.
pub proof fn lemma_matched_pop(
    q: Multiset<(i64, usize)>,
    slots: Seq<Option<i64>>,
    d: i64,
    id: usize,
)
    requires
        matched(q, slots),
        q.count((d, id)) > 0,
    ensures
        id < slots.len(),
        slots[id as int] == Some(d),
        matched(q.remove((d, id)), slots.update(id as int, None)),
{
    broadcast use vstd::multiset::group_multiset_axioms;

    let after = slots.update(id as int, None);
    assert(q.count((d, id)) == if id < slots.len() && slots[id as int] == Some(d) {
        1nat
    } else {
        0nat
    });
    assert forall|x: (i64, usize)| #[trigger]
        q.remove((d, id)).count(x) == if x.1 < after.len() && after[x.1 as int] == Some(x.0) {
            1nat
        } else {
            0nat
        } by {
        assert(q.count(x) == if x.1 < slots.len() && slots[x.1 as int] == Some(x.0) {
            1nat
        } else {
            0nat
        });
    }
}

/// What stands in a slot is in the queue: where the queue is empty, every
/// slot is free; and whatever the queue holds besides a pair stands in
/// another slot.
pub proof fn lemma_matched_slot(q: Multiset<(i64, usize)>, slots: Seq<Option<i64>>, k: int)
    requires
        matched(q, slots),
        0 <= k < slots.len() <= usize::MAX,
        slots[k] is Some,
    ensures
        q.count((slots[k].unwrap(), k as usize)) == 1,
        q.len() > 0,
{
    broadcast use vstd::multiset::group_multiset_axioms;

    let x = (slots[k].unwrap(), k as usize);
    assert(q.count(x) == if x.1 < slots.len() && slots[x.1 as int] == Some(x.0) {
        1nat
    } else {
        0nat
    });
}

/// A traversal that gives the entries of a tree nearest first, by the
/// distance that a function of the caller gives to each rectangle.
pub struct NearbyIterator<'a, const D: usize, T, F> {
    /// The nodes that wait to be visited: each as its distance and its place
    /// in `nodes`.
    pub queue: pqueue::Queue<(i64, usize)>,
    /// Every node that was ever put in the queue.
    pub nodes: Vec<&'a Node<D, T>>,
    /// The distance function.
    pub dist: F,
    /// For each node of `nodes`, the distance with which it waits in the
    /// queue, or nothing once it has left the queue.
    pub slots: Ghost<Seq<Option<i64>>>,
    /// The distance of the entry given last; 0 before the first.
    pub floor: Ghost<int>,
}

impl<'a, const D: usize, T, F: FnMut(Rect<D>, Option<&'a T>) -> i64> NearbyIterator<'a, D, T, F> {
    /// The entries that the traversal has still to give.
    pub open spec fn rest(self) -> Multiset<(Rect<D>, T)> {
        rest_to(self.nodes@, self.slots@, self.nodes@.len())
    }

    /// The number of nodes that the traversal has still to visit.
    pub open spec fn load(self) -> nat {
        load_to(self.nodes@, self.slots@, self.nodes@.len())
    }

    /// The distance of the entry given last; 0 before the first.
    pub open spec fn last_dist(self) -> int {
        self.floor@
    }

    /// The function can be called on every node below `node`: on the
    /// rectangle of a branch with no payload, on that of a leaf with its
    /// payload.
    pub open spec fn askable(node: &'a Node<D, T>, f: F) -> bool
        decreases node,
    {
        match &node.data {
            Data::Item(_) => true,
            Data::Nodes(v) => forall|i: int|
                0 <= i < v@.len() ==> {
                    &&& call_requires(f, ((#[trigger] v@[i]).rect, payload_of(&v@[i])))
                    &&& Self::askable(&v@[i], f)
                },
        }
    }

    /// A function that can be called on every valid rectangle inside that
    /// of a well-formed branch can be called on every node below it.
    pub proof fn lemma_askable(node: &'a Node<D, T>, h: nat, f: F)
        requires
            node.wf(h),
            forall|r: Rect<D>, o: Option<&'a T>|
                node.rect@.contains(r@) && r@.valid() ==> #[trigger] call_requires(f, (r, o)),
        ensures
            Self::askable(node, f),
        decreases h,
    {
        let kids = node.children();
        node.lemma_wf_valid(h);
        assert forall|i: int| 0 <= i < kids.len() implies {
            &&& call_requires(f, ((#[trigger] kids[i]).rect, payload_of(&kids[i])))
            &&& Self::askable(&kids[i], f)
        } by {
            let c = kids[i];
            assert(Node::<D, T>::spans(kids)[i] == c.rect@);
            assert(node.rect@.contains(c.rect@));
            assert(c.fits_under(h));
            if h > 0 {
                assert forall|r: Rect<D>, o: Option<&'a T>|
                    c.rect@.contains(r@) && r@.valid() implies #[trigger] call_requires(
                    f,
                    (r, o),
                ) by {
                    crate::rect::lemma_contains_trans(node.rect@, c.rect@, r@);
                }
                Self::lemma_askable(&kids[i], (h - 1) as nat, f);
            }
        }
    }

    /// The function is a lower bound: it gives no negative distance, and to
    /// a rectangle no more than to any rectangle inside it.
    pub open spec fn lower_bound(f: F) -> bool {
        &&& forall|r: Rect<D>, o: Option<&'a T>, d: i64| #[trigger]
            call_ensures(f, (r, o), d) ==> d >= 0
        &&& forall|
            r1: Rect<D>,
            o1: Option<&'a T>,
            d1: i64,
            r2: Rect<D>,
            o2: Option<&'a T>,
            d2: i64,
        |
            r1@.contains(r2@) && #[trigger] call_ensures(f, (r1, o1), d1) && #[trigger]
            call_ensures(f, (r2, o2), d2) ==> d1 <= d2
    }

    /// The node is a leaf or a well-formed branch.
    pub open spec fn sound(node: &Node<D, T>) -> bool {
        node.is_item() || node.well_formed()
    }

    /// The distance `d` with which the node at `id` waits is what it was
    /// given: 0 for the root, which is a branch and stands first, else what
    /// the function gave for it.
    pub open spec fn graded(self, id: int, d: i64) -> bool {
        ||| id == 0 && d == 0 && self.nodes@[id].is_branch()
        ||| call_ensures(self.dist, (self.nodes@[id].rect, payload_of(self.nodes@[id])), d)
    }

    /// The queue holds exactly the pairs of a distance and a place whose
    /// slot holds that distance.
    pub open spec fn queue_matches(self) -> bool {
        matched(queued(self.queue), self.slots@)
    }

    /// Every node that waits is sound, has the distance it was given, and
    /// has below it only nodes on which the function can be called.
    pub open spec fn slots_sound(self) -> bool {
        forall|id: int|
            0 <= id < self.slots@.len() && (#[trigger] self.slots@[id]) is Some ==> {
                &&& Self::sound(self.nodes@[id])
                &&& self.graded(id, self.slots@[id].unwrap())
                &&& Self::askable(self.nodes@[id], self.dist)
            }
    }

    /// No node waits with a distance below `floor`.
    pub open spec fn above(self, floor: int) -> bool {
        forall|id: int|
            0 <= id < self.slots@.len() && (#[trigger] self.slots@[id]) is Some ==> floor
                <= self.slots@[id].unwrap()
    }

    /// The traversal is in a sound state.
    pub open spec fn wf(self) -> bool {
        &&& self.slots@.len() == self.nodes@.len()
        &&& self.queue_matches()
        &&& self.slots_sound()
        &&& Self::lower_bound(self.dist) ==> self.above(self.floor@)
    }

    /// A traversal of the tree with the root `root`, nearest first by
    /// `dist`. The root waits with the distance 0.
    pub fn new(root: &'a Option<Node<D, T>>, dist: F) -> (it: NearbyIterator<'a, D, T, F>)
        requires
            root matches Some(r) ==> r.well_formed() && Self::askable(r, dist),
        ensures
            it.wf(),
            it.dist == dist,
            it.last_dist() == 0,
            root is None ==> it.rest() == Multiset::<(Rect<D>, T)>::empty(),
            root matches Some(r) ==> it.rest() == r.bag(),
    {
        let mut queue = queue_new();
        let mut nodes: Vec<&'a Node<D, T>> = Vec::new();
        let ghost mut slots: Seq<Option<i64>> = Seq::empty();
        match root {
            Some(root) => {
                proof {
                    lemma_slot_push(nodes@, slots, root, 0, 0);
                    lemma_matched_new();
                    lemma_matched_push(queued(queue), slots, 0);
                    slots = slots.push(Some(0i64));
                }
                nodes.push(root);
                queue_push(&mut queue, (0, 0));
            },
            None => {},
        }
        let it = NearbyIterator { queue, nodes, dist, slots: Ghost(slots), floor: Ghost(0) };
        proof {
            broadcast use vstd::multiset::group_multiset_axioms;

            lemma_matched_new();
            if root is Some {
                assert(rest_to(it.nodes@, it.slots@, 1) =~= root.unwrap().bag());
            }
        }
        it
    }

    /// Freeing a slot leaves the waiting nodes sound.
    proof fn lemma_sound_cleared(before: Self, after: Self, id: int)
        requires
            before.slots_sound(),
            0 <= id < before.slots@.len(),
            after.nodes@ == before.nodes@,
            after.dist == before.dist,
            after.slots@ == before.slots@.update(id, None),
        ensures
            after.slots_sound(),
            forall|floor: int| before.above(floor) ==> after.above(floor),
    {
        assert forall|k: int|
            0 <= k < after.slots@.len() && (#[trigger] after.slots@[k]) is Some implies {
            &&& Self::sound(after.nodes@[k])
            &&& after.graded(k, after.slots@[k].unwrap())
            &&& Self::askable(after.nodes@[k], after.dist)
        } by {
            assert(before.slots@[k] is Some);
            assert(before.graded(k, before.slots@[k].unwrap()));
        }
        assert forall|floor: int| before.above(floor) implies after.above(floor) by {
            assert forall|k: int|
                0 <= k < after.slots@.len() && (#[trigger] after.slots@[k]) is Some implies floor
                <= after.slots@[k].unwrap() by {
                assert(before.slots@[k] is Some);
            }
        }
    }

    /// A sound child put in the next free place, with the distance the
    /// function gave for it, leaves the waiting nodes sound.
    proof fn lemma_sound_pushed(before: Self, after: Self, child: &'a Node<D, T>, dc: i64)
        requires
            before.slots_sound(),
            before.slots@.len() == before.nodes@.len(),
            after.nodes@ == before.nodes@.push(child),
            after.dist == before.dist,
            after.slots@ == before.slots@.push(Some(dc)),
            Self::sound(child),
            Self::askable(child, before.dist),
            call_ensures(before.dist, (child.rect, payload_of(child)), dc),
        ensures
            after.slots_sound(),
            forall|floor: int| before.above(floor) && floor <= dc ==> after.above(floor),
    {
        let n = before.slots@.len() as int;
        assert forall|k: int|
            0 <= k < after.slots@.len() && (#[trigger] after.slots@[k]) is Some implies {
            &&& Self::sound(after.nodes@[k])
            &&& after.graded(k, after.slots@[k].unwrap())
            &&& Self::askable(after.nodes@[k], after.dist)
        } by {
            if k < n {
                assert(before.slots@[k] is Some);
                assert(before.graded(k, before.slots@[k].unwrap()));
            } else {
                assert(after.nodes@[k] == child);
                assert(after.slots@[k] == Some(dc));
            }
        }
        assert forall|floor: int| before.above(floor) && floor <= dc implies after.above(
            floor,
        ) by {
            assert forall|k: int|
                0 <= k < after.slots@.len() && (#[trigger] after.slots@[k]) is Some implies floor
                <= after.slots@[k].unwrap() by {
                if k < n {
                    assert(before.slots@[k] is Some);
                }
            }
        }
    }

    /// A child of a waiting branch is sound, can be asked for, lies inside
    /// the branch, and under a lower bound is no nearer than the branch.
    proof fn lemma_child(self, id: int, d: i64, h: nat, i: int, dc: i64)
        requires
            self.slots_sound(),
            0 <= id < self.slots@.len(),
            self.slots@[id] == Some(d),
            self.nodes@[id].wf(h),
            0 <= i < self.nodes@[id].children().len(),
        ensures
            Self::sound(&self.nodes@[id].children()[i]),
            Self::askable(&self.nodes@[id].children()[i], self.dist),
            call_requires(
                self.dist,
                (
                    self.nodes@[id].children()[i].rect,
                    payload_of(&self.nodes@[id].children()[i]),
                ),
            ),
            Self::lower_bound(self.dist) && call_ensures(
                self.dist,
                (
                    self.nodes@[id].children()[i].rect,
                    payload_of(&self.nodes@[id].children()[i]),
                ),
                dc,
            ) ==> d <= dc,
    {
        let node = self.nodes@[id];
        let kids = node.children();
        let child = kids[i];
        assert(self.slots@[id] is Some);
        assert(self.graded(id, d));
        assert(Self::askable(node, self.dist));
        assert(child.fits_under(h));
        if h > 0 {
            assert(child.wf((h - 1) as nat));
        }
        assert(Node::<D, T>::spans(kids)[i] == child.rect@);
        assert(node.rect@.contains(child.rect@));
    }

    /// The nearest of the entries that have not been given yet, or `None`
    /// when every entry has been given. A branch taken from the queue gives
    /// way to its children, each with the distance that the function gives
    /// for it; a leaf taken from the queue is given, with the distance it
    /// waited with. Where the function is a lower bound, no entry is nearer
    /// than the one given before it.
    pub fn next(&mut self) -> (res: Option<IterItem<'a, D, T>>)
        requires
            old(self).wf(),
        ensures
            final(self).wf(),
            final(self).dist == old(self).dist,
            res is None <==> old(self).rest().len() == 0,
            res is None ==> final(self).rest().len() == 0,
            res is None ==> final(self).last_dist() == old(self).last_dist(),
            res matches Some(it) ==> {
                &&& old(self).rest().count((it.rect, *it.data)) > 0
                &&& final(self).rest() == old(self).rest().remove((it.rect, *it.data))
                &&& call_ensures(old(self).dist, (it.rect, Some(it.data)), it.dist)
                &&& final(self).last_dist() == it.dist
                &&& Self::lower_bound(old(self).dist) ==> old(self).last_dist() <= it.dist
            },
    {
        loop
            invariant
                self.wf(),
                self.dist == old(self).dist,
                self.floor@ == old(self).floor@,
                self.rest() == old(self).rest(),
            decreases self.load(),
        {
            let ghost before = *self;
            let popped = queue_pop(&mut self.queue);
            match popped {
                None => {
                    proof {
                        assert(self.nodes.len() == self.nodes@.len());
                        assert forall|id: int| 0 <= id < self.slots@.len() implies (
                        #[trigger] self.slots@[id]) is None by {
                            if self.slots@[id] is Some {
                                lemma_matched_slot(queued(before.queue), self.slots@, id);
                            }
                        }
                        lemma_slots_free(self.nodes@, self.slots@, self.nodes@.len());
                        assert(self.rest().len() == 0) by {
                            broadcast use vstd::multiset::group_multiset_axioms;

                        }
                    }
                    return None;
                },
                Some((d, id)) => {
                    proof {
                        lemma_matched_pop(queued(before.queue), before.slots@, d, id);
                        lemma_slot_clear(
                            before.nodes@,
                            before.slots@,
                            id as int,
                            before.nodes@.len(),
                        );
                        self.slots = Ghost(before.slots@.update(id as int, None));
                    }
                    let ghost cleared = *self;
                    proof {
                        Self::lemma_sound_cleared(before, cleared, id as int);
                        assert(before.slots@[id as int] is Some);
                        assert(before.graded(id as int, d));
                        assert(Self::sound(before.nodes@[id as int]));
                    }
                    let node: &'a Node<D, T> = self.nodes[id];
                    match &node.data {
                        Data::Item(data) => {
                            proof {
                                broadcast use vstd::multiset::group_multiset_axioms;

                                let e = (node.rect, *data);
                                node.lemma_leaf_bag();
                                assert(cleared.rest() =~= before.rest().remove(e));
                                self.floor = Ghost(d as int);
                                assert(self.nodes.len() == self.nodes@.len());
                                if Self::lower_bound(self.dist) {
                                    assert(before.above(before.floor@));
                                    assert forall|k: int|
                                        0 <= k < self.slots@.len() && (
                                        #[trigger] self.slots@[k]) is Some implies d
                                        <= self.slots@[k].unwrap() by {
                                        let x = (self.slots@[k].unwrap(), k as usize);
                                        lemma_matched_slot(queued(cleared.queue), self.slots@, k);
                                        assert(queued(before.queue).count(x) > 0);
                                        assert(not_after((d, id), x));
                                    }
                                }
                                Self::lemma_sound_cleared(before, *self, id as int);
                            }
                            return Some(IterItem { rect: node.rect, data: data, dist: d });
                        },
                        Data::Nodes(kids) => {
                            let ghost h = choose|h: nat| #[trigger] node.wf(h);
                            proof {
                                node.lemma_bag_children();
                                assert(kids@.take(0) =~= Seq::empty());
                                assert(node.weight() == 1 + Node::weight_of(kids@));
                                assert(cleared.rest().add(Node::bag_of(kids@.take(0)))
                                    =~= cleared.rest()) by {
                                    broadcast use vstd::multiset::group_multiset_axioms;

                                }
                            }
                            let mut i: usize = 0;
                            while i < kids.len()
                                invariant
                                    i <= kids.len(),
                                    kids@ == node.children(),
                                    node.wf(h),
                                    node == before.nodes@[id as int],
                                    before.wf(),
                                    before.slots@[id as int] == Some(d),
                                    0 <= id < before.slots@.len(),
                                    Self::lower_bound(before.dist) ==> before.floor@ <= d,
                                    self.dist == before.dist,
                                    self.floor@ == before.floor@,
                                    self.slots@.len() == self.nodes@.len(),
                                    self.queue_matches(),
                                    self.slots_sound(),
                                    Self::lower_bound(self.dist) ==> self.above(self.floor@),
                                    self.rest() == cleared.rest().add(
                                        Node::bag_of(kids@.take(i as int)),
                                    ),
                                    self.load() == cleared.load() + Node::weight_of(
                                        kids@.take(i as int),
                                    ),
                                decreases kids.len() - i,
                            {
                                let child: &'a Node<D, T> = &kids[i];
                                let o: Option<&'a T> = match &child.data {
                                    Data::Item(t) => Some(t),
                                    Data::Nodes(_) => None,
                                };
                                proof {
                                    assert(o == payload_of(child));
                                    before.lemma_child(id as int, d, h, i as int, 0);
                                }
                                let dc = (self.dist)(child.rect, o);
                                let cid = self.nodes.len();
                                let ghost mid = *self;
                                proof {
                                    lemma_slot_push(
                                        mid.nodes@,
                                        mid.slots@,
                                        child,
                                        dc,
                                        mid.nodes@.len(),
                                    );
                                    lemma_matched_push(queued(mid.queue), mid.slots@, dc);
                                    self.slots = Ghost(mid.slots@.push(Some(dc)));
                                }
                                self.nodes.push(child);
                                queue_push(&mut self.queue, (dc, cid));
                                proof {
                                    before.lemma_child(id as int, d, h, i as int, dc);
                                    Self::lemma_sound_pushed(mid, *self, child, dc);
                                    assert(kids@.take(i + 1).drop_last() =~= kids@.take(
                                        i as int,
                                    ));
                                    assert(kids@.take(i + 1).last() == *child);
                                    assert(self.rest() =~= cleared.rest().add(
                                        Node::bag_of(kids@.take(i + 1)),
                                    )) by {
                                        broadcast use vstd::multiset::group_multiset_axioms;

                                    }
                                }
                                i += 1;
                            }
                            proof {
                                assert(kids@.take(i as int) =~= kids@);
                                Node::lemma_bag_entries(kids@);
                            }
                        },
                    }
                },
            }
        }
    }
}

impl<const D: usize, T: PartialEq> RTree<D, T> {
    /// The function can be called on every node below the root.
    pub open(crate) spec fn askable<'a, F: FnMut(Rect<D>, Option<&'a T>) -> i64>(
        &'a self,
        dist: F,
    ) -> bool {
        match &self.root {
            Some(root) => NearbyIterator::<'a, D, T, F>::askable(root, dist),
            None => true,
        }
    }

    /// A function that can be called on every valid rectangle inside the
    /// bounding rectangle of a well-formed tree can be called on every node
    /// below the root.
    pub proof fn law_askable<'a, F: FnMut(Rect<D>, Option<&'a T>) -> i64>(&'a self, dist: F)
        requires
            self.wf(),
            forall|r: Rect<D>, o: Option<&'a T>|
                self.bounds() is Some && self.bounds().unwrap()@.contains(r@) && r@.valid()
                    ==> #[trigger] call_requires(dist, (r, o)),
        ensures
            self.askable(dist),
    {
        match &self.root {
            Some(root) => {
                NearbyIterator::<'a, D, T, F>::lemma_askable(root, self.height as nat, dist);
            },
            None => {},
        }
    }

    /// A traversal of the entries nearest first, by the distance that `dist`
    /// gives to each rectangle: to that of a branch with no payload, to that
    /// of an entry with its payload.
    pub fn nearby<'a, F>(&'a self, dist: F) -> (it: NearbyIterator<'a, D, T, F>) where
        F: FnMut(Rect<D>, Option<&'a T>) -> i64,

        requires
            self.wf(),
            self.askable(dist),
        ensures
            it.wf(),
            it.dist == dist,
            it.last_dist() == 0,
            it.rest() == self@.to_multiset(),
    {
        proof {
            broadcast use vstd::multiset::group_multiset_axioms;

            if self.root is Some {
                assert(self.root.unwrap().wf(self.height as nat));
            } else {
                vstd::seq_lib::to_multiset_len(self@);
                assert(self@.to_multiset() =~= Multiset::empty());
            }
        }
        NearbyIterator::new(&self.root, dist)
    }
}

} // verus!
