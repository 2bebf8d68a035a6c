//! Points, spheres and boxes over the grid, and their rasterisation.

use vstd::prelude::*;

use crate::coordinate::Coordinate;
use crate::position::{saturated_add, saturated_sub, squared_distance, views, Position};

verus! {

broadcast use vstd::seq_lib::group_seq_properties;

/// `p` has `n` axes and lies in the half-open box `[lo, hi)` on each of them.
pub open spec fn in_box(p: Seq<u64>, lo: Seq<u64>, hi: Seq<u64>, n: nat) -> bool {
    &&& p.len() == n
    &&& forall|j: int| 0 <= j < n ==> lo[j] <= #[trigger] p[j] && p[j] < hi[j]
}

/// `p` lies in the closed box `[lo, hi]` on each of its axes.
pub open spec fn in_closed_box(p: Seq<u64>, lo: Seq<u64>, hi: Seq<u64>) -> bool {
    &&& p.len() == lo.len()
    &&& p.len() == hi.len()
    &&& forall|j: int| 0 <= j < p.len() ==> lo[j] <= #[trigger] p[j] && p[j] <= hi[j]
}

/// `a` comes strictly before `b` in lexicographic order, the first axis
/// being the most significant; both have the same number of axes.
pub open spec fn lex_less(a: Seq<u64>, b: Seq<u64>) -> bool
    decreases a.len(),
{
    if a.len() == 0 || a.len() != b.len() {
        false
    } else {
        lex_less(a.drop_last(), b.drop_last()) || (a.drop_last() == b.drop_last() && a.last()
            < b.last())
    }
}

/// The points of `s` are in strictly ascending lexicographic order.
pub open spec fn lex_sorted(s: Seq<Seq<u64>>) -> bool {
    forall|a: int, b: int| 0 <= a < b < s.len() ==> lex_less(#[trigger] s[a], #[trigger] s[b])
}

/// An analytic shape over the grid.
#[derive(Clone, Debug)]
pub enum Shape {
    Point(Position),
    HyperSphere(Position, Coordinate),
    BoundingBox(Position, Position),
}

impl Shape {
    /// All positions of the shape have the same number of axes.
    pub open spec fn wf(&self) -> bool {
        match self {
            Shape::BoundingBox(lower, higher) => lower@.len() == higher@.len(),
            _ => true,
        }
    }

    /// The corners of the minimum bounding box, lower first.
    pub open spec fn mbb(&self) -> (Seq<u64>, Seq<u64>) {
        match self {
            Shape::Point(p) => (p@, p@),
            Shape::HyperSphere(c, r) => (
                Seq::new(c@.len(), |k: int| saturated_sub(c@[k], r.value)),
                Seq::new(c@.len(), |k: int| saturated_add(c@[k], r.value)),
            ),
            Shape::BoundingBox(lower, higher) => (lower@, higher@),
        }
    }

    /// Whether the grid point `p` is one of the points that approximate the shape:
    /// the point itself, the grid points of the half-open box, or those of the
    /// half-open bounding box of a sphere that lie within its radius.
    pub open spec fn covers(&self, p: Seq<u64>) -> bool {
        match self {
            Shape::Point(c) => p == c@,
            Shape::HyperSphere(c, r) => {
                &&& in_box(p, self.mbb().0, self.mbb().1, c@.len())
                &&& squared_distance(p, c@, c@.len()) <= r.value as int * r.value as int
            },
            Shape::BoundingBox(lower, higher) => in_box(p, lower@, higher@, lower@.len()),
        }
    }

    /// The minimum bounding box of the shape, as its lower and higher corners.
    pub fn get_mbb(&self) -> (r: (Position, Position))
        ensures
            (r.0@, r.1@) == self.mbb(),
    {
        match self {
            Shape::Point(position) => (position.duplicate(), position.duplicate()),
            Shape::HyperSphere(center, radius) => {
                let dimensions = center.dimensions();
                let mut vr: Vec<u64> = Vec::with_capacity(dimensions);
                let mut k: usize = 0;
                while k < dimensions
                    invariant
                        dimensions == center@.len(),
                        k <= dimensions,
                        vr@.len() == k,
                        forall|j: int| 0 <= j < k ==> vr@[j] == radius.value,
                    decreases dimensions - k,
                {
                    vr.push(radius.value);
                    k += 1;
                }
                let vr = Position::from_grid(vr);
                let lower = center.sub(&vr);
                let higher = center.add(&vr);
                assert(lower@ =~= self.mbb().0);
                assert(higher@ =~= self.mbb().1);
                (lower, higher)
            },
            Shape::BoundingBox(lower, higher) => (lower.duplicate(), higher.duplicate()),
        }
    }

    /// Every grid point of the half-open box `[lower, higher)`, each once,
    /// in lexicographic order with the last axis varying fastest.
    fn gen(lower: &Position, higher: &Position) -> (r: Vec<Position>)
        requires
            lower@.len() == higher@.len(),
        ensures
            views(r@).no_duplicates(),
            lex_sorted(views(r@)),
            forall|p: Seq<u64>|
                views(r@).contains(p) <==> in_box(p, lower@, higher@, lower@.len()),
    {
        let d = lower.dimensions();
        let mut cur: Vec<Position> = Vec::new();
        cur.push(Position::from_grid(Vec::new()));
        assert forall|p: Seq<u64>| views(cur@).contains(p) <==> in_box(p, lower@, higher@, 0) by {
            if in_box(p, lower@, higher@, 0) {
                assert(p =~= views(cur@)[0]);
            }
        }
        let mut k: usize = 0;
        while k < d
            invariant
                k <= d,
                d == lower@.len(),
                lower@.len() == higher@.len(),
                views(cur@).no_duplicates(),
                lex_sorted(views(cur@)),
                forall|p: Seq<u64>|
                    views(cur@).contains(p) <==> in_box(p, lower@, higher@, k as nat),
            decreases d - k,
        {
            let lo = lower.get(k).u64();
            let hi = higher.get(k).u64();
            let mut next: Vec<Position> = Vec::new();
            let ghost from: Seq<int> = Seq::empty();
            let ghost pre = views(cur@);
            let mut i: usize = 0;
            while i < cur.len()
                invariant
                    k < d,
                    d == lower@.len(),
                    lower@.len() == higher@.len(),
                    lo == lower@[k as int],
                    hi == higher@[k as int],
                    pre == views(cur@),
                    pre.no_duplicates(),
                    lex_sorted(pre),
                    forall|p: Seq<u64>| pre.contains(p) <==> in_box(p, lower@, higher@, k as nat),
                    i <= cur@.len(),
                    from.len() == next@.len(),
                    forall|j: int|
                        0 <= j < next@.len() ==> 0 <= #[trigger] from[j] < i && views(next@)[j]
                            == pre[from[j]].push(views(next@)[j].last()) && lo <= views(
                            next@,
                        )[j].last() < hi,
                    forall|j1: int, j2: int|
                        0 <= j1 < j2 < next@.len() ==> #[trigger] from[j1] < #[trigger] from[j2]
                            || (from[j1] == from[j2] && views(next@)[j1].last() < views(
                            next@,
                        )[j2].last()),
                    forall|a: int, x: u64|
                        0 <= a < i && lo <= x < hi ==> views(next@).contains(
                            #[trigger] pre[a].push(x),
                        ),
                decreases cur@.len() - i,
            {
                let mut v: u64 = lo;
                while v < hi
                    invariant
                        k < d,
                        d == lower@.len(),
                        lower@.len() == higher@.len(),
                        lo == lower@[k as int],
                        hi == higher@[k as int],
                        pre == views(cur@),
                        i < cur@.len(),
                        lo <= v,
                        v <= hi || v == lo,
                        from.len() == next@.len(),
                        forall|j: int|
                            0 <= j < next@.len() ==> 0 <= #[trigger] from[j] <= i && views(
                                next@,
                            )[j] == pre[from[j]].push(views(next@)[j].last()) && lo <= views(
                                next@,
                            )[j].last() < hi && (from[j] == i ==> views(next@)[j].last() < v),
                        forall|j1: int, j2: int|
                            0 <= j1 < j2 < next@.len() ==> #[trigger] from[j1]
                                < #[trigger] from[j2] || (from[j1] == from[j2] && views(
                                next@,
                            )[j1].last() < views(next@)[j2].last()),
                        forall|a: int, x: u64|
                            0 <= a < i && lo <= x < hi ==> views(next@).contains(
                                #[trigger] pre[a].push(x),
                            ),
                        forall|x: u64|
                            lo <= x < v ==> views(next@).contains(#[trigger] pre[i as int].push(x)),
                    decreases hi - v,
                {
                    let q = cur[i].extended(v);
                    let ghost before = views(next@);
                    next.push(q);
                    proof {
                        from = from.push(i as int);
                        assert(views(next@) =~= before.push(q@));
                        assert(q@.last() == v);
                    }
                    v += 1;
                }
                i += 1;
            }
            let ghost post = views(next@);
            assert forall|p: Seq<u64>| post.contains(p) <==> in_box(
                p,
                lower@,
                higher@,
                (k + 1) as nat,
            ) by {
                if post.contains(p) {
                    let j = choose|j: int| 0 <= j < post.len() && post[j] == p;
                    assert(pre.contains(pre[from[j]]));
                }
                if in_box(p, lower@, higher@, (k + 1) as nat) {
                    let q = p.drop_last();
                    assert forall|j: int| 0 <= j < k implies lower@[j] <= #[trigger] q[j] && q[j]
                        < higher@[j] by {
                        assert(q[j] == p[j]);
                    }
                    assert(in_box(q, lower@, higher@, k as nat));
                    assert(pre.contains(q));
                    let a = choose|a: int| 0 <= a < pre.len() && pre[a] == q;
                    assert(p =~= pre[a].push(p[k as int]));
                    assert(lo <= p[k as int] < hi);
                    assert(post.contains(pre[a].push(p[k as int])));
                }
            }
            assert forall|j1: int, j2: int|
                0 <= j1 < post.len() && 0 <= j2 < post.len() && j1 != j2 implies post[j1]
                != post[j2] by {
                if post[j1] == post[j2] {
                    assert(post[j1].drop_last() =~= pre[from[j1]]);
                    assert(post[j2].drop_last() =~= pre[from[j2]]);
                    if j1 < j2 {
                        assert(from[j1] < from[j2] || (from[j1] == from[j2] && post[j1].last()
                            < post[j2].last()));
                    } else {
                        assert(from[j2] < from[j1] || (from[j1] == from[j2] && post[j2].last()
                            < post[j1].last()));
                    }
                }
            }
            assert forall|j1: int, j2: int| 0 <= j1 < j2 < post.len() implies lex_less(
                #[trigger] post[j1],
                #[trigger] post[j2],
            ) by {
                assert(post[j1].drop_last() =~= pre[from[j1]]);
                assert(post[j2].drop_last() =~= pre[from[j2]]);
                assert(pre.contains(pre[from[j1]]));
                assert(pre.contains(pre[from[j2]]));
                assert(post.contains(post[j1]));
                assert(post.contains(post[j2]));
                if from[j1] < from[j2] {
                    assert(lex_less(pre[from[j1]], pre[from[j2]]));
                }
            }
            cur = next;
            k += 1;
        }
        cur
    }

    /// Whether `p` is one of the grid points that approximate the shape.
    pub fn contains(&self, p: &Position) -> (r: bool)
        requires
            self.wf(),
        ensures
            r == self.covers(p@),
    {
        match self {
            Shape::Point(c) => *p == *c,
            Shape::HyperSphere(c, radius) => {
                if p.dimensions() != c.dimensions() {
                    return false;
                }
                let (lower, higher) = self.get_mbb();
                Shape::inside_box(p, &lower, &higher) && p.within(c, radius.value)
            },
            Shape::BoundingBox(lower, higher) => Shape::inside_box(p, lower, higher),
        }
    }

    /// Whether `p` lies in the half-open box `[lower, higher)`.
    fn inside_box(p: &Position, lower: &Position, higher: &Position) -> (r: bool)
        requires
            lower@.len() == higher@.len(),
        ensures
            r == in_box(p@, lower@, higher@, lower@.len()),
    {
        if p.dimensions() != lower.dimensions() {
            return false;
        }
        let mut k: usize = 0;
        while k < p.dimensions()
            invariant
                p@.len() == lower@.len(),
                lower@.len() == higher@.len(),
                k <= p@.len(),
                forall|j: int| 0 <= j < k ==> lower@[j] <= #[trigger] p@[j] && p@[j] < higher@[j],
            decreases p@.len() - k,
        {
            let v = p.get(k).u64();
            if v < lower.get(k).u64() || v >= higher.get(k).u64() {
                return false;
            }
            k += 1;
        }
        true
    }

    /// The grid points that approximate the shape, each once.
    pub fn rasterise(&self) -> (r: Result<Vec<Position>, String>)
        requires
            self.wf(),
        ensures
            r is Ok,
            r is Ok ==> views(r->Ok_0@).no_duplicates(),
            r is Ok ==> lex_sorted(views(r->Ok_0@)),
            r is Ok ==> forall|p: Seq<u64>| views(r->Ok_0@).contains(p) <==> self.covers(p),
    {
        match self {
            Shape::Point(position) => {
                let mut out: Vec<Position> = Vec::new();
                out.push(position.duplicate());
                assert forall|p: Seq<u64>| views(out@).contains(p) <==> self.covers(p) by {
                    if self.covers(p) {
                        assert(views(out@)[0] == p);
                    }
                }
                Ok(out)
            },
            Shape::HyperSphere(center, radius) => {
                let (lower, higher) = self.get_mbb();
                let all = Shape::gen(&lower, &higher);
                let ghost every = views(all@);
                let mut out: Vec<Position> = Vec::new();
                let mut i: usize = 0;
                while i < all.len()
                    invariant
                        every == views(all@),
                        every.no_duplicates(),
                        lex_sorted(every),
                        lex_sorted(views(out@)),
                        lower@ == self.mbb().0,
                        higher@ == self.mbb().1,
                        lower@.len() == center@.len(),
                        forall|p: Seq<u64>|
                            every.contains(p) <==> in_box(p, lower@, higher@, lower@.len()),
                        i <= all@.len(),
                        views(out@).no_duplicates(),
                        forall|p: Seq<u64>|
                            views(out@).contains(p) <==> (every.subrange(0, i as int).contains(p)
                                && squared_distance(p, center@, center@.len()) <= radius.value as int
                                * radius.value as int),
                    decreases all@.len() - i,
                {
                    let ghost before = views(out@);
                    proof {
                        assert(every[i as int] == all@[i as int]@);
                        assert(every.contains(every[i as int]));
                    }
                    let keep = all[i].within(center, radius.value);
                    if keep {
                        out.push(all[i].duplicate());
                        proof {
                            assert(views(out@) =~= before.push(every[i as int]));
                            assert forall|j: int| 0 <= j < before.len() implies before[j]
                                != every[i as int] by {
                                assert(before.contains(before[j]));
                                let m = choose|m: int| 0 <= m < i && every[m] == before[j];
                            }
                            assert forall|a: int, b: int| 0 <= a < b < views(out@).len() implies lex_less(
                                #[trigger] views(out@)[a],
                                #[trigger] views(out@)[b],
                            ) by {
                                if b == before.len() {
                                    assert(before.contains(before[a]));
                                    let m = choose|m: int| 0 <= m < i && every[m] == before[a];
                                    assert(lex_less(every[m], every[i as int]));
                                } else {
                                    assert(lex_less(before[a], before[b]));
                                }
                            }
                        }
                    }
                    proof {
                        if keep {
                            assert(views(out@) =~= before.push(every[i as int]));
                        } else {
                            assert(views(out@) =~= before);
                        }
                        let ghost s0 = every.subrange(0, i as int);
                        let ghost s1 = every.subrange(0, i + 1);
                        assert forall|p: Seq<u64>|
                            views(out@).contains(p) <==> (s1.contains(p) && squared_distance(
                                p,
                                center@,
                                center@.len(),
                            ) <= radius.value as int * radius.value as int) by {
                            if s1.contains(p) {
                                let m = choose|m: int| 0 <= m < s1.len() && #[trigger] s1[m] == p;
                                if m < i {
                                    assert(s0[m] == p);
                                }
                            }
                            if s0.contains(p) {
                                let m = choose|m: int| 0 <= m < s0.len() && #[trigger] s0[m] == p;
                                assert(s1[m] == p);
                            }
                            if views(out@).contains(p) && !before.contains(p) {
                                assert(p == every[i as int]);
                                assert(s1[i as int] == p);
                            }
                        }
                    }
                    i += 1;
                }
                assert(every.subrange(0, every.len() as int) =~= every);
                Ok(out)
            },
            Shape::BoundingBox(lower, higher) => Ok(Shape::gen(lower, higher)),
        }
    }
}

/// Every point that a shape rasterises to lies within the shape's minimum
/// bounding box, corners included.
pub proof fn lemma_rasterised_within_mbb(s: Shape, p: Seq<u64>)
    requires
        s.wf(),
        s.covers(p),
    ensures
        in_closed_box(p, s.mbb().0, s.mbb().1),
{
}


} // verus!
