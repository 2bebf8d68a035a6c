//! Points of the grid and their componentwise arithmetic.

use vstd::prelude::*;

use crate::coordinate::{reduced, Coordinate};

verus! {

/// Sum of two grid values, held at the top of the grid.
pub open spec fn saturated_add(a: u64, b: u64) -> u64 {
    if a as int + b as int > u64::MAX as int {
        u64::MAX
    } else {
        (a + b) as u64
    }
}

/// Difference of two grid values, held at zero.
pub open spec fn saturated_sub(a: u64, b: u64) -> u64 {
    if a >= b {
        (a - b) as u64
    } else {
        0
    }
}

/// Every coordinate of `p` with its `k` lowest bits dropped.
pub open spec fn reduced_position(p: Seq<u64>, k: u32) -> Seq<u64> {
    Seq::new(p.len(), |i: int| reduced(p[i], k))
}

/// Squared Euclidean distance between the first `n` coordinates of `p` and `c`.
pub open spec fn squared_distance(p: Seq<u64>, c: Seq<u64>, n: nat) -> int
    decreases n,
{
    if n == 0 {
        0
    } else {
        let d = p[n - 1] as int - c[n - 1] as int;
        squared_distance(p, c, (n - 1) as nat) + d * d
    }
}

/// The squared distance over a prefix never exceeds the one over a longer prefix.
pub proof fn lemma_squared_distance_grows(p: Seq<u64>, c: Seq<u64>, m: nat, n: nat)
    requires
        m <= n,
    ensures
        0 <= squared_distance(p, c, m) <= squared_distance(p, c, n),
    decreases n,
{
    if n > m {
        lemma_squared_distance_grows(p, c, m, (n - 1) as nat);
        let d = p[n - 1] as int - c[n - 1] as int;
        assert(d * d >= 0) by (nonlinear_arith);
    } else if n > 0 {
        lemma_squared_distance_grows(p, c, 0, (n - 1) as nat);
        let d = p[n - 1] as int - c[n - 1] as int;
        assert(d * d >= 0) by (nonlinear_arith);
    }
}

/// The grid values of each position of `s`, in order.
pub open spec fn views(s: Seq<Position>) -> Seq<Seq<u64>> {
    s.map_values(|p: Position| p@)
}

/// A point of the grid: one coordinate per dimension.
#[derive(Clone, Debug)]
pub struct Position {
    coordinates: Vec<u64>,
}

impl View for Position {
    type V = Seq<u64>;

    closed spec fn view(&self) -> Seq<u64> {
        self.coordinates@
    }
}

impl Position {
    pub fn new(coordinates: Vec<Coordinate>) -> (r: Position)
        ensures
            r@.len() == coordinates@.len(),
            forall|k: int| 0 <= k < coordinates@.len() ==> r@[k] == coordinates@[k].value,
    {
        let mut grid: Vec<u64> = Vec::with_capacity(coordinates.len());
        let mut k: usize = 0;
        while k < coordinates.len()
            invariant
                k <= coordinates@.len(),
                grid@.len() == k,
                forall|j: int| 0 <= j < k ==> grid@[j] == coordinates@[j].value,
            decreases coordinates@.len() - k,
        {
            grid.push(coordinates[k].value);
            k += 1;
        }
        Position { coordinates: grid }
    }

    /// A position made of the given grid values.
    pub fn from_grid(coordinates: Vec<u64>) -> (r: Position)
        ensures
            r@ == coordinates@,
    {
        Position { coordinates }
    }

    /// The grid values of the position, in order.
    pub fn grid(&self) -> (r: Vec<u64>)
        ensures
            r@ == self@,
    {
        let r = self.coordinates.clone();
        assert(r@ =~= self@);
        r
    }

    /// A copy of the position.
    pub fn duplicate(&self) -> (r: Position)
        ensures
            r@ == self@,
    {
        Position { coordinates: self.grid() }
    }

    /// The position with one more axis, whose coordinate is `v`.
    pub fn extended(&self, v: u64) -> (r: Position)
        ensures
            r@ == self@.push(v),
    {
        let mut coordinates = self.grid();
        coordinates.push(v);
        Position { coordinates }
    }

    pub fn dimensions(&self) -> (r: usize)
        ensures
            r == self@.len(),
    {
        self.coordinates.len()
    }

    /// The coordinate along axis `k`.
    pub fn get(&self, k: usize) -> (r: Coordinate)
        requires
            k < self@.len(),
        ensures
            r.value == self@[k as int],
    {
        Coordinate::new(self.coordinates[k])
    }

    /// Replaces the coordinate along axis `k`.
    pub fn set(&mut self, k: usize, c: Coordinate)
        requires
            k < old(self)@.len(),
        ensures
            final(self)@ == old(self)@.update(k as int, c.value),
    {
        self.coordinates.set(k, c.value);
    }

    /// Componentwise sum, held at the top of the grid.
    pub fn add(&self, other: &Position) -> (r: Position)
        requires
            self@.len() == other@.len(),
        ensures
            r@.len() == self@.len(),
            forall|k: int| 0 <= k < self@.len() ==> r@[k] == saturated_add(self@[k], other@[k]),
    {
        let mut sum: Vec<u64> = Vec::with_capacity(self.coordinates.len());
        let mut k: usize = 0;
        while k < self.coordinates.len()
            invariant
                self@.len() == other@.len(),
                k <= self@.len(),
                sum@.len() == k,
                forall|j: int| 0 <= j < k ==> sum@[j] == saturated_add(self@[j], other@[j]),
            decreases self@.len() - k,
        {
            let a = self.coordinates[k];
            let b = other.coordinates[k];
            if a > u64::MAX - b {
                sum.push(u64::MAX);
            } else {
                sum.push(a + b);
            }
            k += 1;
        }
        Position { coordinates: sum }
    }

    /// Componentwise difference, held at zero.
    pub fn sub(&self, other: &Position) -> (r: Position)
        requires
            self@.len() == other@.len(),
        ensures
            r@.len() == self@.len(),
            forall|k: int| 0 <= k < self@.len() ==> r@[k] == saturated_sub(self@[k], other@[k]),
    {
        let mut diff: Vec<u64> = Vec::with_capacity(self.coordinates.len());
        let mut k: usize = 0;
        while k < self.coordinates.len()
            invariant
                self@.len() == other@.len(),
                k <= self@.len(),
                diff@.len() == k,
                forall|j: int| 0 <= j < k ==> diff@[j] == saturated_sub(self@[j], other@[j]),
            decreases self@.len() - k,
        {
            let a = self.coordinates[k];
            let b = other.coordinates[k];
            if a >= b {
                diff.push(a - b);
            } else {
                diff.push(0);
            }
            k += 1;
        }
        Position { coordinates: diff }
    }

    /// Drops the `k` lowest bits of every coordinate.
    pub fn reduce_precision(&self, k: u32) -> (r: Position)
        ensures
            r@ == reduced_position(self@, k),
    {
        let mut out: Vec<u64> = Vec::with_capacity(self.coordinates.len());
        let mut i: usize = 0;
        while i < self.coordinates.len()
            invariant
                i <= self@.len(),
                out@.len() == i,
                forall|j: int| 0 <= j < i ==> out@[j] == reduced(self@[j], k),
            decreases self@.len() - i,
        {
            let c = Coordinate::new(self.coordinates[i]).reduce_precision(k);
            out.push(c.value);
            i += 1;
        }
        let r = Position { coordinates: out };
        assert(r@ =~= reduced_position(self@, k));
        r
    }

    /// Whether the squared Euclidean distance between `self` and `center`
    /// is at most `radius` squared.
    pub fn within(&self, center: &Position, radius: u64) -> (r: bool)
        requires
            self@.len() == center@.len(),
        ensures
            r == (squared_distance(self@, center@, self@.len()) <= radius as int * radius as int),
    {
        assert(radius as int * radius as int <= u64::MAX as int * u64::MAX as int)
            by (nonlinear_arith)
            requires
                radius <= u64::MAX,
        ;
        let limit: u128 = (radius as u128) * (radius as u128);
        let mut acc: u128 = 0;
        let mut k: usize = 0;
        while k < self.coordinates.len()
            invariant
                self@.len() == center@.len(),
                k <= self@.len(),
                limit == radius as int * radius as int,
                acc as int == squared_distance(self@, center@, k as nat),
                acc <= limit,
            decreases self@.len() - k,
        {
            let a = self.coordinates[k];
            let b = center.coordinates[k];
            let d: u64 = if a >= b { a - b } else { b - a };
            assert(d as int * d as int <= u64::MAX as int * u64::MAX as int) by (nonlinear_arith)
                requires
                    d <= u64::MAX,
            ;
            let term: u128 = (d as u128) * (d as u128);
            assert(term as int == (a as int - b as int) * (a as int - b as int)) by (nonlinear_arith)
                requires
                    d as int == if a >= b { a as int - b as int } else { b as int - a as int },
                    term as int == d as int * d as int,
            ;
            if term > limit - acc {
                proof {
                    lemma_squared_distance_grows(self@, center@, (k + 1) as nat, self@.len());
                }
                return false;
            }
            acc = acc + term;
            k += 1;
        }
        true
    }
}

impl PartialEq for Position {
    fn eq(&self, other: &Position) -> (r: bool) {
        if self.coordinates.len() != other.coordinates.len() {
            return false;
        }
        let mut k: usize = 0;
        while k < self.coordinates.len()
            invariant
                self@.len() == other@.len(),
                k <= self@.len(),
                forall|j: int| 0 <= j < k ==> self@[j] == other@[j],
            decreases self@.len() - k,
        {
            if self.coordinates[k] != other.coordinates[k] {
                return false;
            }
            k += 1;
        }
        assert(self@ =~= other@);
        true
    }
}

impl vstd::std_specs::cmp::PartialEqSpecImpl for Position {
    open spec fn obeys_eq_spec() -> bool {
        true
    }

    open spec fn eq_spec(&self, other: &Position) -> bool {
        self@ == other@
    }
}

impl Eq for Position {
}

} // verus!
