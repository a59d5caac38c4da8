//! Axis-aligned rectangles and the geometry the tree is built on.

use vstd::prelude::*;

verus! {

/// The mathematical model of a rectangle: per axis, a lower and an upper bound.
pub struct Span {
    pub lo: Seq<int>,
    pub hi: Seq<int>,
}

/// The smaller of two integers.
pub open spec fn lesser(a: int, b: int) -> int {
    if a < b {
        a
    } else {
        b
    }
}

/// The larger of two integers.
pub open spec fn greater(a: int, b: int) -> int {
    if a > b {
        a
    } else {
        b
    }
}

impl Span {
    /// The number of axes.
    pub open spec fn dim(self) -> nat {
        self.lo.len()
    }

    /// Both bounds are given for each of `d` axes.
    pub open spec fn shaped(self, d: nat) -> bool {
        self.lo.len() == d && self.hi.len() == d
    }

    /// On every axis the lower bound does not exceed the upper bound.
    pub open spec fn valid(self) -> bool {
        forall|i: int| #![auto] 0 <= i < self.dim() ==> self.lo[i] <= self.hi[i]
    }

    /// `other` lies within `self` on every axis.
    pub open spec fn contains(self, other: Span) -> bool {
        forall|i: int|
            #![auto]
            0 <= i < self.dim() ==> self.lo[i] <= other.lo[i] && other.hi[i]
                <= self.hi[i]
    }

    /// The two spans overlap on every axis; touching bounds count as overlap.
    pub open spec fn intersects(self, other: Span) -> bool {
        forall|i: int|
            #![auto]
            0 <= i < self.dim() ==> other.lo[i] <= self.hi[i] && other.hi[i]
                >= self.lo[i]
    }

    /// On some axis `other` is not strictly inside `self`.
    pub open spec fn on_edge(self, other: Span) -> bool {
        exists|i: int|
            #![auto]
            0 <= i < self.dim() && (other.lo[i] <= self.lo[i] || other.hi[i]
                >= self.hi[i])
    }

    /// The smallest span that contains both `self` and `other`.
    pub open spec fn union(self, other: Span) -> Span {
        Span {
            lo: Seq::new(self.dim(), |i: int| lesser(self.lo[i], other.lo[i])),
            hi: Seq::new(self.dim(), |i: int| greater(self.hi[i], other.hi[i])),
        }
    }

    /// The length of the span along axis `i`.
    pub open spec fn extent(self, i: int) -> int {
        self.hi[i] - self.lo[i]
    }

    /// The product of the extents of the first `k` axes.
    pub open spec fn volume_to(self, k: nat) -> int
        decreases k,
    {
        if k == 0 {
            1
        } else {
            self.volume_to((k - 1) as nat) * self.extent(k - 1)
        }
    }

    /// The product of the extents of all axes; zero where there is no axis.
    pub open spec fn volume(self) -> int {
        if self.dim() == 0 {
            0
        } else {
            self.volume_to(self.dim())
        }
    }

    /// Every extent, and the product of the extents of every leading run of
    /// axes, fits a signed 64-bit coordinate.
    pub open spec fn measurable(self) -> bool {
        &&& self.valid()
        &&& forall|i: int| #![trigger self.extent(i)]
            0 <= i < self.dim() ==> self.extent(i) <= i64::MAX
        &&& forall|k: nat| #![trigger self.volume_to(k)]
            k <= self.dim() ==> self.volume_to(k) <= i64::MAX
    }

    /// The distance by which the two spans are apart along axis `i`; zero or
    /// less where they overlap there.
    pub open spec fn gap(self, other: Span, i: int) -> int {
        greater(self.lo[i], other.lo[i]) - lesser(self.hi[i], other.hi[i])
    }

    /// The sum, over the first `k` axes, of the squares of the positive gaps.
    pub open spec fn sq_dist_to(self, other: Span, k: nat) -> int
        decreases k,
    {
        if k == 0 {
            0
        } else {
            let g = self.gap(other, k - 1);
            self.sq_dist_to(other, (k - 1) as nat) + if g > 0 {
                g * g
            } else {
                0
            }
        }
    }

    /// The squared distance between the two spans; zero where they overlap.
    pub open spec fn sq_dist(self, other: Span) -> int {
        self.sq_dist_to(other, self.dim())
    }

    /// Some span of `parts` has the lower bound of `self` on axis `i`.
    pub open spec fn meets_lo(self, parts: Seq<Span>, i: int) -> bool {
        exists|j: int| 0 <= j < parts.len() && (#[trigger] parts[j]).lo[i] == self.lo[i]
    }

    /// Some span of `parts` has the upper bound of `self` on axis `i`.
    pub open spec fn meets_hi(self, parts: Seq<Span>, i: int) -> bool {
        exists|j: int| 0 <= j < parts.len() && (#[trigger] parts[j]).hi[i] == self.hi[i]
    }

    /// `self` contains every span of `parts` and has no slack: on each axis
    /// each of its two bounds is the bound of one of them.
    pub open spec fn tightly_bounds(self, parts: Seq<Span>) -> bool {
        &&& forall|j: int| 0 <= j < parts.len() ==> self.contains(#[trigger] parts[j])
        &&& forall|i: int| 0 <= i < self.dim() ==> #[trigger] self.meets_lo(parts, i)
        &&& forall|i: int| 0 <= i < self.dim() ==> #[trigger] self.meets_hi(parts, i)
    }

    /// By how much the volume of `self` grows when it is widened to hold
    /// `other`.
    pub open spec fn enlargement(self, other: Span) -> int {
        self.union(other).volume() - self.volume()
    }

    /// The first axis of greatest extent is `axis`.
    pub open spec fn largest_at(self, axis: int) -> bool {
        &&& forall|i: int| #![trigger self.extent(i)]
            0 <= i < self.dim() ==> self.extent(i) <= self.extent(axis)
        &&& forall|i: int| #![trigger self.extent(i)]
            0 <= i < axis ==> self.extent(i) < self.extent(axis)
    }
}

/// An axis-aligned box in `D` dimensions.
#[derive(Clone, Copy, Debug, PartialEq, Eq)]
pub struct Rect<const D: usize> {
    pub min: [i64; D],
    pub max: [i64; D],
}

impl<const D: usize> View for Rect<D> {
    type V = Span;

    open spec fn view(&self) -> Span {
        Span {
            lo: Seq::new(D as nat, |i: int| self.min[i] as int),
            hi: Seq::new(D as nat, |i: int| self.max[i] as int),
        }
    }
}

impl<const D: usize> Default for Rect<D> {
    /// The point at the origin.
    fn default() -> (r: Rect<D>)
        ensures
            forall|i: int| 0 <= i < D ==> #[trigger] r@.lo[i] == 0 && r@.hi[i] == 0,
    {
        Rect { min: [0; D], max: [0; D] }
    }
}

/// The smaller of two coordinates.
pub fn min(a: i64, b: i64) -> (r: i64)
    ensures
        r == lesser(a as int, b as int),
{
    if a < b {
        a
    } else {
        b
    }
}

/// The larger of two coordinates.
pub fn max(a: i64, b: i64) -> (r: i64)
    ensures
        r == greater(a as int, b as int),
{
    if a > b {
        a
    } else {
        b
    }
}

impl<const D: usize> Rect<D> {
    /// A rectangle from its two corners.
    pub fn new(min: [i64; D], max: [i64; D]) -> (r: Rect<D>)
        ensures
            r.min == min,
            r.max == max,
    {
        Rect { min, max }
    }

    /// The degenerate rectangle that holds a single point.
    pub fn new_point(point: [i64; D]) -> (r: Rect<D>)
        ensures
            r.min == point,
            r.max == point,
            r@.valid(),
    {
        Rect::new(point, point)
    }

    /// Grows `self` to the smallest rectangle that contains both it and `rect`.
    pub fn expand(&mut self, rect: &Rect<D>)
        ensures
            final(self)@ == old(self)@.union(rect@),
    {
        let mut i: usize = 0;
        while i < D
            invariant
                i <= D,
                forall|j: int|
                    #![auto]
                    0 <= j < i ==> self.min[j] == lesser(
                        old(self).min[j] as int,
                        rect.min[j] as int,
                    ),
                forall|j: int|
                    #![auto]
                    0 <= j < i ==> self.max[j] == greater(
                        old(self).max[j] as int,
                        rect.max[j] as int,
                    ),
                forall|j: int|
                    #![auto]
                    i <= j < D ==> self.min[j] == old(self).min[j],
                forall|j: int|
                    #![auto]
                    i <= j < D ==> self.max[j] == old(self).max[j],
            decreases D - i,
        {
            if rect.min[i] < self.min[i] {
                self.min[i] = rect.min[i];
            }
            if rect.max[i] > self.max[i] {
                self.max[i] = rect.max[i];
            }
            i += 1;
        }
        assert(self@.lo =~= old(self)@.union(rect@).lo);
        assert(self@.hi =~= old(self)@.union(rect@).hi);
    }

    /// The first axis along which the rectangle is longest; 0 where there is
    /// no axis.
    pub fn largest_axis(&self) -> (axis: usize)
        requires
            forall|i: int|
                0 <= i < D ==> i64::MIN <= #[trigger] self@.extent(i) <= i64::MAX,
        ensures
            D == 0 ==> axis == 0,
            D > 0 ==> axis < D && self@.largest_at(axis as int),
    {
        if D == 0 {
            return 0;
        }
        let mut axis: usize = 0;
        assert(i64::MIN <= self@.extent(0) <= i64::MAX);
        let mut size: i64 = self.max[0] - self.min[0];
        let mut i: usize = 1;
        while i < D
            invariant
                1 <= i <= D,
                axis < i,
                size == self@.extent(axis as int),
                forall|j: int|
                    0 <= j < D ==> i64::MIN <= #[trigger] self@.extent(j) <= i64::MAX,
                forall|j: int|
                    0 <= j < i ==> #[trigger] self@.extent(j) <= self@.extent(axis as int),
                forall|j: int|
                    0 <= j < axis ==> #[trigger] self@.extent(j) < self@.extent(axis as int),
            decreases D - i,
        {
            assert(i64::MIN <= self@.extent(i as int) <= i64::MAX);
            let asize: i64 = self.max[i] - self.min[i];
            if asize > size {
                axis = i;
                size = asize;
            }
            i += 1;
        }
        axis
    }

    /// Whether `rect` lies within `self` on every axis.
    pub fn contains(&self, rect: &Rect<D>) -> (r: bool)
        ensures
            r == self@.contains(rect@),
    {
        let mut i: usize = 0;
        while i < D
            invariant
                i <= D,
                forall|j: int|
                    #![auto]
                    0 <= j < i ==> self@.lo[j] <= rect@.lo[j] && rect@.hi[j] <= self@.hi[j],
            decreases D - i,
        {
            if rect.min[i] < self.min[i] || rect.max[i] > self.max[i] {
                assert(!(self@.lo[i as int] <= rect@.lo[i as int] && rect@.hi[i as int]
                    <= self@.hi[i as int]));
                assert(0 <= i < self@.dim());
                assert(!self@.contains(rect@));
                return false;
            }
            i += 1;
        }
        true
    }

    /// Whether the two rectangles overlap on every axis; touching edges count.
    pub fn intersects(&self, rect: &Rect<D>) -> (r: bool)
        ensures
            r == self@.intersects(rect@),
    {
        let mut i: usize = 0;
        while i < D
            invariant
                i <= D,
                forall|j: int|
                    #![auto]
                    0 <= j < i ==> rect@.lo[j] <= self@.hi[j] && rect@.hi[j] >= self@.lo[j],
            decreases D - i,
        {
            if rect.min[i] > self.max[i] || rect.max[i] < self.min[i] {
                assert(!(rect@.lo[i as int] <= self@.hi[i as int] && rect@.hi[i as int]
                    >= self@.lo[i as int]));
                assert(0 <= i < self@.dim());
                assert(!self@.intersects(rect@));
                return false;
            }
            i += 1;
        }
        true
    }

    /// Whether `rect` touches or passes a face of `self` on some axis.
    pub fn on_edge(&self, rect: &Rect<D>) -> (r: bool)
        ensures
            r == self@.on_edge(rect@),
    {
        let mut i: usize = 0;
        while i < D
            invariant
                i <= D,
                forall|j: int|
                    #![auto]
                    0 <= j < i ==> !(rect@.lo[j] <= self@.lo[j] || rect@.hi[j] >= self@.hi[j]),
            decreases D - i,
        {
            if !(rect.min[i] > self.min[i]) || !(rect.max[i] < self.max[i]) {
                assert(rect@.lo[i as int] <= self@.lo[i as int] || rect@.hi[i as int]
                    >= self@.hi[i as int]);
                assert(0 <= i < self@.dim());
                assert(self@.on_edge(rect@));
                return true;
            }
            i += 1;
        }
        false
    }

    /// Whether on every axis the lower bound does not exceed the upper
    /// bound.
    pub fn is_valid(&self) -> (r: bool)
        ensures
            r == self@.valid(),
    {
        let mut i: usize = 0;
        while i < D
            invariant
                i <= D,
                forall|j: int|
                    #![auto]
                    0 <= j < i ==> self@.lo[j] <= self@.hi[j],
            decreases D - i,
        {
            if self.min[i] > self.max[i] {
                assert(!(self@.lo[i as int] <= self@.hi[i as int]));
                assert(0 <= i < self@.dim());
                assert(!self@.valid());
                return false;
            }
            i += 1;
        }
        true
    }

    /// Whether the rectangle is valid and every extent, and the product of
    /// the extents of every leading run of axes, fits a coordinate.
    pub fn is_measurable(&self) -> (r: bool)
        ensures
            r == self@.measurable(),
    {
        if !self.is_valid() {
            return false;
        }
        let mut volume: i128 = 1;
        let mut i: usize = 0;
        while i < D
            invariant
                i <= D,
                self@.valid(),
                0 <= volume <= i64::MAX,
                volume == self@.volume_to(i as nat),
                forall|j: int| 0 <= j < i ==> #[trigger] self@.extent(j) <= i64::MAX,
                forall|k: nat| k <= i ==> #[trigger] self@.volume_to(k) <= i64::MAX,
            decreases D - i,
        {
            assert(self@.lo[i as int] <= self@.hi[i as int]);
            let extent: i128 = self.max[i] as i128 - self.min[i] as i128;
            assert(extent == self@.extent(i as int));
            if extent > i64::MAX as i128 {
                assert(!self@.measurable());
                return false;
            }
            proof {
                lemma_volume_bounds(self@, i as nat);
                assert(0 <= volume * extent <= i64::MAX * i64::MAX) by (nonlinear_arith)
                    requires
                        0 <= volume <= i64::MAX,
                        0 <= extent <= i64::MAX,
                ;
            }
            let next: i128 = volume * extent;
            if next > i64::MAX as i128 {
                assert(self@.volume_to((i + 1) as nat) > i64::MAX);
                assert(!self@.measurable());
                return false;
            }
            volume = next;
            assert forall|k: nat| k <= i + 1 implies #[trigger] self@.volume_to(k) <= i64::MAX by {
                if k == i + 1 {
                }
            }
            i += 1;
        }
        true
    }

    /// The product of the extents along all axes.
    pub fn area(&self) -> (a: i64)
        requires
            self@.measurable(),
        ensures
            a == self@.volume(),
    {
        if D == 0 {
            return 0;
        }
        assert(self@.extent(0) <= i64::MAX);
        assert(self@.lo[0] <= self@.hi[0]);
        let mut area: i64 = self.max[0] - self.min[0];
        assert(area == self@.volume_to(1)) by {
            reveal_with_fuel(Span::volume_to, 2);
        }
        let mut i: usize = 1;
        while i < D
            invariant
                1 <= i <= D,
                self@.measurable(),
                area == self@.volume_to(i as nat),
            decreases D - i,
        {
            assert(self@.extent(i as int) <= i64::MAX);
            assert(self@.lo[i as int] <= self@.hi[i as int]);
            proof {
                lemma_volume_bounds(self@, i as nat);
                assert(self@.volume_to((i + 1) as nat) <= i64::MAX);
            }
            area = area * (self.max[i] - self.min[i]);
            i += 1;
        }
        area
    }

    /// The area of the smallest rectangle that contains both `self` and `rect`.
    pub fn unioned_area(&self, rect: &Rect<D>) -> (a: i64)
        requires
            self@.union(rect@).measurable(),
        ensures
            a == self@.union(rect@).volume(),
    {
        if D == 0 {
            return 0;
        }
        let ghost u = self@.union(rect@);
        assert(u.extent(0) <= i64::MAX);
        assert(u.lo[0] <= u.hi[0]);
        let mut area: i64 = max(self.max[0], rect.max[0]) - min(self.min[0], rect.min[0]);
        assert(area == u.volume_to(1)) by {
            reveal_with_fuel(Span::volume_to, 2);
        }
        let mut i: usize = 1;
        while i < D
            invariant
                1 <= i <= D,
                u == self@.union(rect@),
                u.measurable(),
                area == u.volume_to(i as nat),
            decreases D - i,
        {
            assert(u.extent(i as int) <= i64::MAX);
            assert(u.lo[i as int] <= u.hi[i as int]);
            proof {
                lemma_volume_bounds(u, i as nat);
                assert(u.volume_to((i + 1) as nat) <= i64::MAX);
            }
            area = area * (max(self.max[i], rect.max[i]) - min(self.min[i], rect.min[i]));
            i += 1;
        }
        area
    }

    /// The squared distance between the two rectangles: the sum, over the
    /// axes, of the squared gap between them; zero where they overlap.
    pub fn box_dist(&self, rect: &Rect<D>) -> (d: i64)
        requires
            self@.sq_dist(rect@) <= i64::MAX,
        ensures
            d == self@.sq_dist(rect@),
    {
        let mut dist: i64 = 0;
        let mut i: usize = 0;
        while i < D
            invariant
                i <= D,
                self@.sq_dist(rect@) <= i64::MAX,
                dist == self@.sq_dist_to(rect@, i as nat),
            decreases D - i,
        {
            let a: i64 = max(self.min[i], rect.min[i]);
            let b: i64 = min(self.max[i], rect.max[i]);
            proof {
                lemma_sq_dist_grows(self@, rect@, (i + 1) as nat, D as nat);
                lemma_sq_dist_grows(self@, rect@, 0, i as nat);
                assert(a - b == self@.gap(rect@, i as int));
            }
            if a > b {
                assert(a - b <= (a - b) * (a - b)) by (nonlinear_arith)
                    requires
                        a - b > 0,
                ;
                let x: i64 = a - b;
                dist = dist + x * x;
            }
            i += 1;
        }
        dist
    }
}

/// The product of non-negative extents is non-negative, and one more factor
/// gives the next product.
pub proof fn lemma_volume_bounds(s: Span, k: nat)
    requires
        s.valid(),
        k <= s.dim(),
    ensures
        0 <= s.volume_to(k),
        k < s.dim() ==> s.volume_to(k + 1) == s.volume_to(k) * s.extent(k as int),
    decreases k,
{
    if k > 0 {
        lemma_volume_bounds(s, (k - 1) as nat);
        assert(s.lo[k - 1] <= s.hi[k - 1]);
        assert(0 <= s.volume_to((k - 1) as nat) * s.extent(k - 1)) by (nonlinear_arith)
            requires
                0 <= s.volume_to((k - 1) as nat),
                0 <= s.extent(k - 1),
        ;
    }
}

/// A partial sum of squared gaps never exceeds a later one, and none is
/// negative.
pub proof fn lemma_sq_dist_grows(a: Span, b: Span, j: nat, k: nat)
    requires
        j <= k,
    ensures
        0 <= a.sq_dist_to(b, j) <= a.sq_dist_to(b, k),
    decreases k,
{
    if k == 0 {
    } else if j == k {
        lemma_sq_dist_grows(a, b, 0, (k - 1) as nat);
        let g = a.gap(b, k - 1);
        assert(g > 0 ==> g * g >= 0) by (nonlinear_arith);
    } else {
        lemma_sq_dist_grows(a, b, j, (k - 1) as nat);
        let g = a.gap(b, k - 1);
        assert(g > 0 ==> g * g >= 0) by (nonlinear_arith);
    }
}

/// A valid span inside a measurable one is measurable, and its partial
/// volumes are no larger.
pub proof fn lemma_inner_measurable(outer: Span, inner: Span)
    requires
        outer.measurable(),
        inner.valid(),
        inner.shaped(outer.dim()),
        outer.shaped(outer.dim()),
        outer.contains(inner),
    ensures
        inner.measurable(),
        forall|k: nat| k <= inner.dim() ==> #[trigger] inner.volume_to(k) <= outer.volume_to(k),
{
    assert forall|i: int| 0 <= i < inner.dim() implies #[trigger] inner.extent(i)
        <= outer.extent(i) by {
        assert(outer.lo[i] <= inner.lo[i] && inner.hi[i] <= outer.hi[i]);
    }
    assert forall|k: nat| k <= inner.dim() implies #[trigger] inner.volume_to(k)
        <= outer.volume_to(k) by {
        lemma_inner_volume(outer, inner, k);
    }
    assert forall|i: int| 0 <= i < inner.dim() implies #[trigger] inner.extent(i) <= i64::MAX by {
        assert(outer.extent(i) <= i64::MAX);
    }
    assert forall|k: nat| k <= inner.dim() implies #[trigger] inner.volume_to(k) <= i64::MAX by {
        assert(inner.volume_to(k) <= outer.volume_to(k));
        assert(outer.volume_to(k) <= i64::MAX);
    }
}

proof fn lemma_inner_volume(outer: Span, inner: Span, k: nat)
    requires
        outer.valid(),
        inner.valid(),
        inner.shaped(outer.dim()),
        outer.shaped(outer.dim()),
        outer.contains(inner),
        k <= inner.dim(),
    ensures
        0 <= inner.volume_to(k) <= outer.volume_to(k),
    decreases k,
{
    if k > 0 {
        lemma_inner_volume(outer, inner, (k - 1) as nat);
        assert(outer.lo[k - 1] <= inner.lo[k - 1] && inner.hi[k - 1] <= outer.hi[k - 1]);
        assert(inner.lo[k - 1] <= inner.hi[k - 1]);
        let a = inner.volume_to((k - 1) as nat);
        let b = outer.volume_to((k - 1) as nat);
        let x = inner.extent(k - 1);
        let y = outer.extent(k - 1);
        assert(0 <= a * x <= b * y) by (nonlinear_arith)
            requires
                0 <= a <= b,
                0 <= x <= y,
        ;
    }
}

/// The union of two spans contains both, and is valid where they are.
pub proof fn lemma_union_contains(a: Span, b: Span)
    requires
        a.shaped(a.dim()),
        b.shaped(a.dim()),
    ensures
        a.union(b).shaped(a.dim()),
        a.union(b).contains(a),
        a.union(b).contains(b),
        a.valid() ==> a.union(b).valid(),
        a.contains(b) ==> a.union(b) == a,
{
    let u = a.union(b);
    if a.valid() {
        assert forall|i: int| 0 <= i < u.dim() implies #[trigger] u.lo[i] <= u.hi[i] by {
            assert(a.lo[i] <= a.hi[i]);
        }
    }
    if a.contains(b) {
        assert forall|i: int| 0 <= i < a.dim() implies u.lo[i] == a.lo[i] && u.hi[i] == a.hi[i] by {
            assert(a.lo[i] <= b.lo[i] && b.hi[i] <= a.hi[i]);
        }
        assert(u.lo =~= a.lo);
        assert(u.hi =~= a.hi);
    }
}

/// A span that contains two spans contains their union.
pub proof fn lemma_union_within(outer: Span, a: Span, b: Span)
    requires
        outer.shaped(a.dim()),
        a.shaped(a.dim()),
        b.shaped(a.dim()),
        outer.contains(a),
        outer.contains(b),
    ensures
        outer.contains(a.union(b)),
{
    let u = a.union(b);
    assert forall|i: int| 0 <= i < outer.dim() implies outer.lo[i] <= #[trigger] u.lo[i] && u.hi[i]
        <= outer.hi[i] by {
        assert(outer.lo[i] <= a.lo[i] && a.hi[i] <= outer.hi[i]);
        assert(outer.lo[i] <= b.lo[i] && b.hi[i] <= outer.hi[i]);
    }
}

/// Containment is transitive.
pub proof fn lemma_contains_trans(a: Span, b: Span, c: Span)
    requires
        a.shaped(a.dim()),
        b.shaped(a.dim()),
        c.shaped(a.dim()),
        a.contains(b),
        b.contains(c),
    ensures
        a.contains(c),
{
    assert forall|i: int| 0 <= i < a.dim() implies a.lo[i] <= #[trigger] c.lo[i] && c.hi[i]
        <= a.hi[i] by {
        assert(a.lo[i] <= b.lo[i] && b.hi[i] <= a.hi[i]);
        assert(b.lo[i] <= c.lo[i] && c.hi[i] <= b.hi[i]);
    }
}

/// What intersects a span intersects every span that contains it.
pub proof fn lemma_intersects_outer(outer: Span, inner: Span, q: Span)
    requires
        outer.shaped(outer.dim()),
        inner.shaped(outer.dim()),
        q.shaped(outer.dim()),
        outer.contains(inner),
        inner.intersects(q),
    ensures
        outer.intersects(q),
{
    assert forall|i: int| 0 <= i < outer.dim() implies #[trigger] q.lo[i] <= outer.hi[i] && q.hi[i]
        >= outer.lo[i] by {
        assert(outer.lo[i] <= inner.lo[i] && inner.hi[i] <= outer.hi[i]);
        assert(q.lo[i] <= inner.hi[i] && q.hi[i] >= inner.lo[i]);
    }
}

/// Two rectangles with the same view are the same rectangle.
pub proof fn lemma_view_injective<const D: usize>(a: Rect<D>, b: Rect<D>)
    requires
        a@ == b@,
    ensures
        a == b,
{
    assert forall|i: int| 0 <= i < D implies a.min[i] == b.min[i] by {
        assert(a@.lo[i] == a.min[i] as int);
        assert(b@.lo[i] == b.min[i] as int);
    }
    assert forall|i: int| 0 <= i < D implies a.max[i] == b.max[i] by {
        assert(a@.hi[i] == a.max[i] as int);
        assert(b@.hi[i] == b.max[i] as int);
    }
    assert(a.min =~= b.min);
    assert(a.max =~= b.max);
}

/// A single span is tightly bounded by itself.
pub proof fn lemma_tight_single(parts: Seq<Span>)
    requires
        parts.len() == 1,
    ensures
        parts[0].tightly_bounds(parts),
{
    let b = parts[0];
    assert forall|i: int| 0 <= i < b.dim() implies #[trigger] b.meets_lo(parts, i) by {
        assert(parts[0].lo[i] == b.lo[i]);
    }
    assert forall|i: int| 0 <= i < b.dim() implies #[trigger] b.meets_hi(parts, i) by {
        assert(parts[0].hi[i] == b.hi[i]);
    }
}

/// Where `b` tightly bounds `parts`, its union with one more span tightly
/// bounds `parts` with that span appended.
pub proof fn lemma_tight_push(b: Span, parts: Seq<Span>, x: Span)
    requires
        b.shaped(b.dim()),
        x.shaped(b.dim()),
        forall|j: int| 0 <= j < parts.len() ==> (#[trigger] parts[j]).shaped(b.dim()),
        b.tightly_bounds(parts),
        parts.len() > 0,
    ensures
        b.union(x).tightly_bounds(parts.push(x)),
{
    let u = b.union(x);
    let more = parts.push(x);
    lemma_union_contains(b, x);
    assert forall|j: int| 0 <= j < more.len() implies u.contains(#[trigger] more[j]) by {
        if j < parts.len() {
            assert(more[j] == parts[j]);
            assert(b.contains(parts[j]));
            lemma_contains_trans(u, b, parts[j]);
        }
    }
    assert forall|i: int| 0 <= i < u.dim() implies #[trigger] u.meets_lo(more, i) by {
        if x.lo[i] < b.lo[i] {
            assert(more[parts.len() as int].lo[i] == u.lo[i]);
        } else {
            assert(b.meets_lo(parts, i));
            let j = choose|j: int| 0 <= j < parts.len() && (#[trigger] parts[j]).lo[i] == b.lo[i];
            assert(more[j].lo[i] == u.lo[i]);
        }
    }
    assert forall|i: int| 0 <= i < u.dim() implies #[trigger] u.meets_hi(more, i) by {
        if x.hi[i] > b.hi[i] {
            assert(more[parts.len() as int].hi[i] == u.hi[i]);
        } else {
            assert(b.meets_hi(parts, i));
            let j = choose|j: int| 0 <= j < parts.len() && (#[trigger] parts[j]).hi[i] == b.hi[i];
            assert(more[j].hi[i] == u.hi[i]);
        }
    }
}

/// Two spans that tightly bound the same spans, in whatever order, are equal.
pub proof fn lemma_tight_unique(a: Span, b: Span, p: Seq<Span>, q: Seq<Span>)
    requires
        a.shaped(a.dim()),
        b.shaped(a.dim()),
        a.tightly_bounds(p),
        b.tightly_bounds(q),
        forall|j: int| 0 <= j < p.len() ==> q.contains(#[trigger] p[j]),
        forall|j: int| 0 <= j < q.len() ==> p.contains(#[trigger] q[j]),
    ensures
        a == b,
{
    assert forall|i: int| 0 <= i < a.dim() implies a.lo[i] == b.lo[i] && a.hi[i] == b.hi[i] by {
        assert(a.meets_lo(p, i));
        assert(a.meets_hi(p, i));
        assert(b.meets_lo(q, i));
        assert(b.meets_hi(q, i));
        let j1 = choose|j: int| 0 <= j < p.len() && (#[trigger] p[j]).lo[i] == a.lo[i];
        let j2 = choose|j: int| 0 <= j < p.len() && (#[trigger] p[j]).hi[i] == a.hi[i];
        let k1 = choose|j: int| 0 <= j < q.len() && (#[trigger] q[j]).lo[i] == b.lo[i];
        let k2 = choose|j: int| 0 <= j < q.len() && (#[trigger] q[j]).hi[i] == b.hi[i];
        assert(q.contains(p[j1]));
        assert(q.contains(p[j2]));
        assert(p.contains(q[k1]));
        assert(p.contains(q[k2]));
        let j1q = choose|k: int| 0 <= k < q.len() && q[k] == p[j1];
        let j2q = choose|k: int| 0 <= k < q.len() && q[k] == p[j2];
        let k1p = choose|k: int| 0 <= k < p.len() && p[k] == q[k1];
        let k2p = choose|k: int| 0 <= k < p.len() && p[k] == q[k2];
        assert(b.contains(q[j1q]));
        assert(b.contains(q[j2q]));
        assert(a.contains(p[k1p]));
        assert(a.contains(p[k2p]));
    }
    assert(a.lo =~= b.lo);
    assert(a.hi =~= b.hi);
}

/// A span that tightly bounds valid spans is valid.
pub proof fn lemma_tight_valid(b: Span, parts: Seq<Span>)
    requires
        b.shaped(b.dim()),
        b.tightly_bounds(parts),
        forall|j: int|
            0 <= j < parts.len() ==> (#[trigger] parts[j]).valid() && parts[j].shaped(b.dim()),
    ensures
        b.valid(),
{
    assert forall|i: int| 0 <= i < b.dim() implies b.lo[i] <= b.hi[i] by {
        assert(b.meets_lo(parts, i));
        let j = choose|j: int| 0 <= j < parts.len() && (#[trigger] parts[j]).lo[i] == b.lo[i];
        assert(b.contains(parts[j]));
        assert(parts[j].valid());
        assert(parts[j].lo[i] <= parts[j].hi[i]);
    }
}

/// Where `b` tightly bounds `parts` and one of them is widened to hold `r`,
/// the union of `b` and `r` tightly bounds the result.
pub proof fn lemma_tight_grow(b: Span, parts: Seq<Span>, i: int, r: Span)
    requires
        b.shaped(b.dim()),
        r.shaped(b.dim()),
        forall|j: int| 0 <= j < parts.len() ==> (#[trigger] parts[j]).shaped(b.dim()),
        b.tightly_bounds(parts),
        0 <= i < parts.len(),
    ensures
        b.union(r).tightly_bounds(parts.update(i, parts[i].union(r))),
{
    let u = b.union(r);
    let x = parts[i].union(r);
    let more = parts.update(i, x);
    lemma_union_contains(b, r);
    lemma_union_contains(parts[i], r);
    assert(b.contains(parts[i]));
    assert forall|j: int| 0 <= j < more.len() implies u.contains(#[trigger] more[j]) by {
        if j == i {
            lemma_contains_trans(u, b, parts[i]);
            lemma_union_within(u, parts[i], r);
        } else {
            assert(more[j] == parts[j]);
            assert(b.contains(parts[j]));
            lemma_contains_trans(u, b, parts[j]);
        }
    }
    assert forall|a: int| 0 <= a < u.dim() implies #[trigger] u.meets_lo(more, a) by {
        if r.lo[a] < b.lo[a] {
            assert(more[i].lo[a] == u.lo[a]);
        } else {
            assert(b.meets_lo(parts, a));
            let j = choose|j: int| 0 <= j < parts.len() && (#[trigger] parts[j]).lo[a] == b.lo[a];
            assert(more[j].lo[a] == u.lo[a]);
        }
    }
    assert forall|a: int| 0 <= a < u.dim() implies #[trigger] u.meets_hi(more, a) by {
        if r.hi[a] > b.hi[a] {
            assert(more[i].hi[a] == u.hi[a]);
        } else {
            assert(b.meets_hi(parts, a));
            let j = choose|j: int| 0 <= j < parts.len() && (#[trigger] parts[j]).hi[a] == b.hi[a];
            assert(more[j].hi[a] == u.hi[a]);
        }
    }
}

/// Where `b` tightly bounds `parts`, and the spans under one of them are
/// dealt out to two spans `l` and `r` that tightly bound their shares, `b`
/// tightly bounds `parts` with `l` in place of that one and `r` appended.
pub proof fn lemma_tight_halves(
    b: Span,
    parts: Seq<Span>,
    i: int,
    under: Seq<Span>,
    l: Span,
    under_l: Seq<Span>,
    r: Span,
    under_r: Seq<Span>,
)
    requires
        b.shaped(b.dim()),
        l.shaped(b.dim()),
        r.shaped(b.dim()),
        forall|j: int| 0 <= j < parts.len() ==> (#[trigger] parts[j]).shaped(b.dim()),
        forall|j: int| 0 <= j < under.len() ==> (#[trigger] under[j]).shaped(b.dim()),
        0 <= i < parts.len(),
        b.tightly_bounds(parts),
        parts[i].tightly_bounds(under),
        l.tightly_bounds(under_l),
        r.tightly_bounds(under_r),
        under_l.len() > 0,
        under_r.len() > 0,
        forall|j: int| 0 <= j < under_l.len() ==> under.contains(#[trigger] under_l[j]),
        forall|j: int| 0 <= j < under_r.len() ==> under.contains(#[trigger] under_r[j]),
        forall|j: int|
            0 <= j < under.len() ==> under_l.contains(#[trigger] under[j]) || under_r.contains(
                under[j],
            ),
    ensures
        b.tightly_bounds(parts.update(i, l).push(r)),
{
    let x = parts[i];
    let more = parts.update(i, l).push(r);
    assert(b.contains(x));
    assert forall|a: int| 0 <= a < b.dim() implies x.lo[a] <= l.lo[a] && l.hi[a] <= x.hi[a] by {
        assert(l.meets_lo(under_l, a));
        assert(l.meets_hi(under_l, a));
        let j1 = choose|j: int| 0 <= j < under_l.len() && (#[trigger] under_l[j]).lo[a] == l.lo[a];
        let j2 = choose|j: int| 0 <= j < under_l.len() && (#[trigger] under_l[j]).hi[a] == l.hi[a];
        assert(under.contains(under_l[j1]));
        assert(under.contains(under_l[j2]));
        let k1 = choose|k: int| 0 <= k < under.len() && under[k] == under_l[j1];
        let k2 = choose|k: int| 0 <= k < under.len() && under[k] == under_l[j2];
        assert(x.contains(under[k1]));
        assert(x.contains(under[k2]));
    }
    assert forall|a: int| 0 <= a < b.dim() implies x.lo[a] <= r.lo[a] && r.hi[a] <= x.hi[a] by {
        assert(r.meets_lo(under_r, a));
        assert(r.meets_hi(under_r, a));
        let j1 = choose|j: int| 0 <= j < under_r.len() && (#[trigger] under_r[j]).lo[a] == r.lo[a];
        let j2 = choose|j: int| 0 <= j < under_r.len() && (#[trigger] under_r[j]).hi[a] == r.hi[a];
        assert(under.contains(under_r[j1]));
        assert(under.contains(under_r[j2]));
        let k1 = choose|k: int| 0 <= k < under.len() && under[k] == under_r[j1];
        let k2 = choose|k: int| 0 <= k < under.len() && under[k] == under_r[j2];
        assert(x.contains(under[k1]));
        assert(x.contains(under[k2]));
    }
    assert(x.contains(l));
    assert(x.contains(r));
    lemma_contains_trans(b, x, l);
    lemma_contains_trans(b, x, r);
    assert forall|j: int| 0 <= j < more.len() implies b.contains(#[trigger] more[j]) by {
        if j < parts.len() && j != i {
            assert(more[j] == parts[j]);
        }
    }
    assert forall|a: int| 0 <= a < b.dim() implies #[trigger] b.meets_lo(more, a) by {
        assert(b.meets_lo(parts, a));
        let j = choose|j: int| 0 <= j < parts.len() && (#[trigger] parts[j]).lo[a] == b.lo[a];
        if j != i {
            assert(more[j].lo[a] == b.lo[a]);
        } else {
            assert(x.meets_lo(under, a));
            let g = choose|g: int| 0 <= g < under.len() && (#[trigger] under[g]).lo[a] == x.lo[a];
            if under_l.contains(under[g]) {
                let k = choose|k: int| 0 <= k < under_l.len() && under_l[k] == under[g];
                assert(l.contains(under_l[k]));
                assert(more[i].lo[a] == b.lo[a]);
            } else {
                assert(under_r.contains(under[g]));
                let k = choose|k: int| 0 <= k < under_r.len() && under_r[k] == under[g];
                assert(r.contains(under_r[k]));
                assert(more[parts.len() as int].lo[a] == b.lo[a]);
            }
        }
    }
    assert forall|a: int| 0 <= a < b.dim() implies #[trigger] b.meets_hi(more, a) by {
        assert(b.meets_hi(parts, a));
        let j = choose|j: int| 0 <= j < parts.len() && (#[trigger] parts[j]).hi[a] == b.hi[a];
        if j != i {
            assert(more[j].hi[a] == b.hi[a]);
        } else {
            assert(x.meets_hi(under, a));
            let g = choose|g: int| 0 <= g < under.len() && (#[trigger] under[g]).hi[a] == x.hi[a];
            if under_l.contains(under[g]) {
                let k = choose|k: int| 0 <= k < under_l.len() && under_l[k] == under[g];
                assert(l.contains(under_l[k]));
                assert(more[i].hi[a] == b.hi[a]);
            } else {
                assert(under_r.contains(under[g]));
                let k = choose|k: int| 0 <= k < under_r.len() && under_r[k] == under[g];
                assert(r.contains(under_r[k]));
                assert(more[parts.len() as int].hi[a] == b.hi[a]);
            }
        }
    }
}

/// Where `b` tightly bounds `parts` and one of them lies strictly inside `b`,
/// `b` still tightly bounds them after that one is taken out by moving the
/// last into its place.
pub proof fn lemma_tight_swap_remove(b: Span, parts: Seq<Span>, i: int)
    requires
        b.shaped(b.dim()),
        forall|j: int| 0 <= j < parts.len() ==> (#[trigger] parts[j]).shaped(b.dim()),
        0 <= i < parts.len(),
        b.tightly_bounds(parts),
        !b.on_edge(parts[i]),
    ensures
        b.tightly_bounds(parts.update(i, parts.last()).drop_last()),
{
    let rest = parts.update(i, parts.last()).drop_last();
    let x = parts[i];
    assert forall|j: int| 0 <= j < rest.len() implies b.contains(#[trigger] rest[j]) by {
        if j == i {
            assert(rest[j] == parts[parts.len() - 1]);
        } else {
            assert(rest[j] == parts[j]);
        }
    }
    assert forall|a: int| 0 <= a < b.dim() implies #[trigger] b.meets_lo(rest, a) by {
        assert(b.meets_lo(parts, a));
        let j = choose|j: int| 0 <= j < parts.len() && (#[trigger] parts[j]).lo[a] == b.lo[a];
        assert(!(x.lo[a] <= b.lo[a] || x.hi[a] >= b.hi[a]));
        assert(j != i);
        if j == parts.len() - 1 {
            assert(rest[i].lo[a] == b.lo[a]);
        } else {
            assert(rest[j].lo[a] == b.lo[a]);
        }
    }
    assert forall|a: int| 0 <= a < b.dim() implies #[trigger] b.meets_hi(rest, a) by {
        assert(b.meets_hi(parts, a));
        let j = choose|j: int| 0 <= j < parts.len() && (#[trigger] parts[j]).hi[a] == b.hi[a];
        assert(!(x.lo[a] <= b.lo[a] || x.hi[a] >= b.hi[a]));
        assert(j != i);
        if j == parts.len() - 1 {
            assert(rest[i].hi[a] == b.hi[a]);
        } else {
            assert(rest[j].hi[a] == b.hi[a]);
        }
    }
}

/// A span that tightly bounds spans which all lie in `outer` lies in `outer`.
pub proof fn lemma_tight_within(outer: Span, b: Span, parts: Seq<Span>)
    requires
        outer.shaped(b.dim()),
        b.shaped(b.dim()),
        b.tightly_bounds(parts),
        forall|j: int| 0 <= j < parts.len() ==> outer.contains(#[trigger] parts[j]),
    ensures
        outer.contains(b),
{
    assert forall|a: int| 0 <= a < outer.dim() implies outer.lo[a] <= b.lo[a] && b.hi[a]
        <= outer.hi[a] by {
        assert(b.meets_lo(parts, a));
        assert(b.meets_hi(parts, a));
        let j1 = choose|j: int| 0 <= j < parts.len() && (#[trigger] parts[j]).lo[a] == b.lo[a];
        let j2 = choose|j: int| 0 <= j < parts.len() && (#[trigger] parts[j]).hi[a] == b.hi[a];
        assert(outer.contains(parts[j1]));
        assert(outer.contains(parts[j2]));
    }
}

} // verus!
