//! Grid coordinates and their geometry.

use vstd::prelude::*;
use vstd::std_specs::convert::FromSpecImpl;
use vstd::std_specs::ops::AddSpecImpl;

verus! {

/// A grid coordinate: `x` counts rows, `y` counts columns.
#[derive(Debug, Clone, Copy, PartialEq, Eq, Structural, Hash)]
pub struct Point {
    pub x: usize,
    pub y: usize,
}

/// The squared Euclidean distance between two coordinates, as a mathematical integer.
pub open spec fn squared_distance(a: Point, b: Point) -> int {
    (a.x - b.x) * (a.x - b.x) + (a.y - b.y) * (a.y - b.y)
}

/// The coordinates one unit step away from `p`, in the order in which they are
/// visited: one row down, one column right, then, where they exist, one row up
/// and one column left.
pub open spec fn neighbors(p: Point) -> Seq<Point>
    recommends
        p.x < usize::MAX,
        p.y < usize::MAX,
{
    seq![Point { x: (p.x + 1) as usize, y: p.y }, Point { x: p.x, y: (p.y + 1) as usize }] + (if p.x
        > 0 {
        seq![Point { x: (p.x - 1) as usize, y: p.y }]
    } else {
        Seq::empty()
    }) + (if p.y > 0 {
        seq![Point { x: p.x, y: (p.y - 1) as usize }]
    } else {
        Seq::empty()
    })
}

/// Whether two coordinates are one unit step apart.
pub open spec fn adjacent(a: Point, b: Point) -> bool {
    ||| a.y == b.y && (a.x + 1 == b.x || b.x + 1 == a.x)
    ||| a.x == b.x && (a.y + 1 == b.y || b.y + 1 == a.y)
}

/// The neighbours of a coordinate are the coordinates one unit step away from it.
pub proof fn lemma_neighbors_adjacent(p: Point)
    requires
        p.x < usize::MAX,
        p.y < usize::MAX,
    ensures
        forall|n: Point| adjacent(p, n) <==> #[trigger] neighbors(p).contains(n),
        forall|i: int| 0 <= i < neighbors(p).len() ==> adjacent(p, #[trigger] neighbors(p)[i]),
{
    let around = neighbors(p);
    let down = Point { x: (p.x + 1) as usize, y: p.y };
    let right = Point { x: p.x, y: (p.y + 1) as usize };
    assert(around[0] == down);
    assert(around[1] == right);
    if p.x > 0 {
        assert(around[2] == Point { x: (p.x - 1) as usize, y: p.y });
    }
    if p.y > 0 {
        assert(around[around.len() - 1] == Point { x: p.x, y: (p.y - 1) as usize });
    }
    assert forall|n: Point| adjacent(p, n) implies around.contains(n) by {
        if n == down {
            assert(around[0] == n);
        } else if n == right {
            assert(around[1] == n);
        } else if n.x + 1 == p.x {
            assert(around[2] == n);
        } else {
            assert(around[around.len() - 1] == n);
        }
    }
}

impl Default for Point {
    fn default() -> (p: Self)
        ensures
            p == (Point { x: 0, y: 0 }),
    {
        Point { x: 0, y: 0 }
    }
}

impl From<(usize, usize)> for Point {
    fn from(input: (usize, usize)) -> (p: Self) {
        Self { x: input.0, y: input.1 }
    }
}

impl FromSpecImpl<(usize, usize)> for Point {
    open spec fn obeys_from_spec() -> bool {
        true
    }

    open spec fn from_spec(input: (usize, usize)) -> Self {
        Point { x: input.0, y: input.1 }
    }
}

impl core::ops::Add<Point> for Point {
    type Output = Point;

    fn add(self, rhs: Point) -> (sum: Point) {
        Point { x: self.x + rhs.x, y: self.y + rhs.y }
    }
}

impl AddSpecImpl<Point> for Point {
    open spec fn obeys_add_spec() -> bool {
        true
    }

    open spec fn add_req(self, rhs: Point) -> bool {
        self.x + rhs.x <= usize::MAX && self.y + rhs.y <= usize::MAX
    }

    open spec fn add_spec(self, rhs: Point) -> Point {
        Point { x: (self.x + rhs.x) as usize, y: (self.y + rhs.y) as usize }
    }
}

impl Point {
    pub fn new(x: usize, y: usize) -> (p: Self)
        ensures
            p == (Point { x, y }),
    {
        Self { x, y }
    }

    /// Whether `self` lies strictly below `reference` on both axes.
    pub fn is_contained_in(&self, reference: &Self) -> (inside: bool)
        ensures
            inside == (self.x < reference.x && self.y < reference.y),
    {
        self.x < reference.x && self.y < reference.y
    }

    /// Whether `other` lies strictly below `self` on both axes.
    pub fn contains(&self, other: &Self) -> (inside: bool)
        ensures
            inside == (other.x < self.x && other.y < self.y),
    {
        self.x > other.x && self.y > other.y
    }

    /// The difference of two coordinates, where neither axis goes below zero.
    pub fn checked_sub(&self, rhs: &Point) -> (diff: Option<Point>)
        ensures
            diff == if self.x >= rhs.x && self.y >= rhs.y {
                Some(Point { x: (self.x - rhs.x) as usize, y: (self.y - rhs.y) as usize })
            } else {
                None
            },
    {
        if self.x < rhs.x || self.y < rhs.y {
            None
        } else {
            Some(Point::new(self.x - rhs.x, self.y - rhs.y))
        }
    }

    /// The coordinates one unit step away from `self`.
    pub fn get_points_around(&self) -> (around: Vec<Point>)
        requires
            self.x < usize::MAX,
            self.y < usize::MAX,
        ensures
            around@ == neighbors(*self),
    {
        let mut around: Vec<Point> = Vec::new();
        let row_step = Point::new(1, 0);
        let column_step = Point::new(0, 1);
        around.push(*self + row_step);
        around.push(*self + column_step);
        if let Some(up) = self.checked_sub(&row_step) {
            around.push(up);
        }
        if let Some(left) = self.checked_sub(&column_step) {
            around.push(left);
        }
        assert(around@ =~= neighbors(*self));
        around
    }

    /// The squared distance of `self` from the corner.
    pub fn squared_norm(&self) -> (norm: usize)
        requires
            self.x * self.x + self.y * self.y <= usize::MAX,
        ensures
            norm == self.x * self.x + self.y * self.y,
    {
        assert(self.x * self.x <= self.x * self.x + self.y * self.y) by (nonlinear_arith);
        assert(self.y * self.y <= self.x * self.x + self.y * self.y) by (nonlinear_arith);
        self.x * self.x + self.y * self.y
    }

    /// The squared Euclidean distance from `self` to `other`.
    pub fn squared_distance(&self, other: Point) -> (dist: usize)
        requires
            squared_distance(*self, other) <= usize::MAX,
        ensures
            dist == squared_distance(*self, other),
    {
        let dx: usize = if self.x >= other.x {
            self.x - other.x
        } else {
            other.x - self.x
        };
        let dy: usize = if self.y >= other.y {
            self.y - other.y
        } else {
            other.y - self.y
        };
        assert(dx * dx == (self.x - other.x) * (self.x - other.x)) by (nonlinear_arith)
            requires
                dx == self.x - other.x || dx == other.x - self.x,
        ;
        assert(dy * dy == (self.y - other.y) * (self.y - other.y)) by (nonlinear_arith)
            requires
                dy == self.y - other.y || dy == other.y - self.y,
        ;
        assert(0 <= dx * dx && 0 <= dy * dy) by (nonlinear_arith);
        dx * dx + dy * dy
    }
}

} // verus!
