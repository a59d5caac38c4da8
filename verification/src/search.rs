//! Collecting the entries that intersect a rectangle.

use crate::node::{Data, Node};
use crate::rect::{lemma_intersects_outer, Rect};
use crate::seqs::{lemma_filter_empty, lemma_filter_single};
use crate::tree::RTree;
use vstd::prelude::*;

verus! {

/// The entries that `items` refers to: each rectangle with the payload
/// behind its reference.
pub open spec fn referred<'a, const D: usize, T>(items: Seq<(Rect<D>, &'a T)>) -> Seq<
    (Rect<D>, T),
> {
    Seq::new(items.len(), |i: int| (items[i].0, *items[i].1))
}

impl<const D: usize, T> Node<D, T> {
    /// Whether the rectangle of an entry intersects `rect`.
    pub open spec fn touching(rect: Rect<D>) -> spec_fn((Rect<D>, T)) -> bool {
        |e: (Rect<D>, T)| e.0@.intersects(rect@)
    }

    /// The entries under the node whose rectangle intersects `rect`, in
    /// depth-first order.
    pub open spec fn found(self, rect: Rect<D>) -> Seq<(Rect<D>, T)> {
        self.entries().filter(Self::touching(rect))
    }

    /// The node is a well-formed branch at some level.
    pub open spec fn well_formed(self) -> bool {
        exists|h: nat| #[trigger] self.wf(h)
    }

    /// Under a node whose rectangle does not intersect `rect` no entry
    /// does.
    pub proof fn lemma_none_found_outside(self, h: nat, rect: Rect<D>)
        requires
            self.fits_under(h),
            !self.rect@.intersects(rect@),
        ensures
            self.found(rect).len() == 0,
    {
        self.lemma_fits_within(h);
        let es = self.entries();
        let pred = Self::touching(rect);
        assert forall|k: int| 0 <= k < es.len() implies !pred(#[trigger] es[k]) by {
            if es[k].0@.intersects(rect@) {
                lemma_intersects_outer(self.rect@, es[k].0@, rect@);
            }
        }
        lemma_filter_empty(es, pred);
    }

    /// Appends to `items` every entry under the branch whose rectangle
    /// intersects `rect`, in depth-first order; children whose rectangle
    /// does not intersect `rect` are passed over.
    pub fn search_flat<'a>(&'a self, rect: &Rect<D>, items: &mut Vec<(Rect<D>, &'a T)>)
        requires
            self.well_formed(),
        ensures
            referred(final(items)@) == referred(old(items)@) + self.found(*rect),
        decreases self,
    {
        let ghost h = choose|h: nat| #[trigger] self.wf(h);
        let ghost pred = Self::touching(*rect);
        let nodes = self.nodes();
        let ghost kids = nodes@;
        proof {
            assert(kids.take(0) =~= Seq::empty());
            assert(Self::entries_of(kids.take(0)) =~= Seq::empty());
            lemma_filter_empty(Self::entries_of(kids.take(0)), pred);
            assert(referred(items@) =~= referred(old(items)@) + Self::entries_of(
                kids.take(0),
            ).filter(pred));
        }
        let mut i: usize = 0;
        while i < nodes.len()
            invariant
                i <= nodes.len(),
                nodes@ == kids,
                kids == self.children(),
                self.wf(h),
                pred == Self::touching(*rect),
                referred(items@) == referred(old(items)@) + Self::entries_of(
                    kids.take(i as int),
                ).filter(pred),
            decreases nodes.len() - i,
        {
            let ghost c = kids[i as int];
            let ghost before = items@;
            let ghost sofar = Self::entries_of(kids.take(i as int));
            proof {
                assert(c.fits_under(h));
                Self::lemma_entries_split(kids, i as int);
                Seq::filter_distributes_over_add(sofar, c.entries(), pred);
            }
            if nodes[i].rect.intersects(rect) {
                match &nodes[i].data {
                    Data::Item(data) => {
                        items.push((nodes[i].rect, data));
                        proof {
                            let e = (c.rect, c.payload());
                            assert(c.entries() =~= seq![e]);
                            lemma_filter_single(e, pred);
                            assert(pred(e));
                            assert(referred(items@) =~= referred(before) + c.entries().filter(
                                pred,
                            ));
                        }
                    },
                    Data::Nodes(_) => {
                        proof {
                            assert(c.wf((h - 1) as nat));
                        }
                        nodes[i].search_flat(rect, items);
                        proof {
                            assert(referred(items@) =~= referred(before) + c.entries().filter(
                                pred,
                            ));
                        }
                    },
                }
            } else {
                proof {
                    c.lemma_none_found_outside(h, *rect);
                    assert(referred(items@) =~= referred(before) + c.entries().filter(pred));
                }
            }
            proof {
                assert(referred(before) + c.entries().filter(pred) =~= referred(old(items)@) + (
                sofar.filter(pred) + c.entries().filter(pred)));
                assert(referred(items@) =~= referred(old(items)@) + (sofar
                    + c.entries()).filter(pred));
            }
            i += 1;
        }
        proof {
            assert(kids.take(i as int) =~= kids);
        }
    }
}

impl<const D: usize, T: PartialEq> RTree<D, T> {
    /// The entries whose rectangle intersects `rect`, in depth-first order.
    pub open(crate) spec fn found(self, rect: Rect<D>) -> Seq<(Rect<D>, T)> {
        self@.filter(Node::touching(rect))
    }

    /// Appends to `items` every entry whose rectangle intersects `rect`, in
    /// depth-first order.
    pub fn search_flat<'a>(&'a self, rect: Rect<D>, items: &mut Vec<(Rect<D>, &'a T)>)
        requires
            self.wf(),
        ensures
            referred(final(items)@) == referred(old(items)@) + self.found(rect),
    {
        match &self.root {
            Some(root) => {
                assert(root.wf(self.height as nat));
                root.search_flat(&rect, items);
            },
            None => {
                proof {
                    lemma_filter_empty(self@, Node::touching(rect));
                    assert(referred(items@) =~= referred(old(items)@) + self.found(rect));
                }
            },
        }
    }
}

} // verus!
