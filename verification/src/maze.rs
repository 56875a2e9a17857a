//! The maze that a grid stands for, as a mathematical object: the cells, the
//! bounding coordinate and the two marked coordinates. Contracts and laws of
//! the library are stated over this model.

use crate::cell::CellType;
use crate::point::adjacent;
use crate::point::squared_distance;
use crate::point::Point;
use vstd::prelude::*;
use vstd::set_lib::lemma_set_disjoint_lens;

verus! {

/// The model of a loaded grid.
pub struct Maze {
    /// The rows, top to bottom.
    pub cells: Seq<Seq<CellType>>,
    /// The number of rows, and the length of the first row.
    pub bounds: Point,
    pub origin: Point,
    pub target: Point,
}

/// The coordinates of row `x` that lie in its first `n` columns.
pub open spec fn row_prefix(x: usize, n: nat) -> Set<Point> {
    Set::new(|p: Point| p.x == x && p.y < n)
}

proof fn lemma_row_prefix_len(x: usize, n: nat)
    requires
        n <= usize::MAX,
    ensures
        row_prefix(x, n).finite(),
        row_prefix(x, n).len() == n,
    decreases n,
{
    if n == 0 {
        assert(row_prefix(x, n) =~= Set::<Point>::empty());
    } else {
        let shorter = (n - 1) as nat;
        lemma_row_prefix_len(x, shorter);
        let added = Point { x, y: shorter as usize };
        assert(row_prefix(x, n) =~= row_prefix(x, shorter).insert(added));
    }
}

impl Maze {
    /// Whether the rows hold a cell at `p`.
    pub open spec fn has_cell(self, p: Point) -> bool {
        p.x < self.cells.len() && p.y < self.cells[p.x as int].len()
    }

    /// The cell that the rows hold at `p`.
    pub open spec fn stored(self, p: Point) -> CellType
        recommends
            self.has_cell(p),
    {
        self.cells[p.x as int][p.y as int]
    }

    /// The cell at `p`, for a `p` inside the bounding coordinate.
    pub open spec fn cell_at(self, p: Point) -> Option<CellType> {
        if p.x < self.bounds.x && p.y < self.bounds.y && self.has_cell(p) {
            Some(self.stored(p))
        } else {
            None
        }
    }

    /// Whether a search may step onto `p`.
    pub open spec fn passable(self, p: Point) -> bool {
        self.cell_at(p) == Some(CellType::Floor) || self.cell_at(p) == Some(CellType::Target)
    }

    /// Whether a search that steps onto `p` has arrived.
    pub open spec fn is_goal(self, p: Point) -> bool {
        self.cell_at(p) == Some(CellType::Target)
    }

    /// The estimate that a search records for `p`: the squared distance to the target.
    pub open spec fn heuristic(self, p: Point) -> nat {
        squared_distance(self.target, p) as nat
    }

    /// Whether the estimate of every cell fits the machine's word.
    pub open spec fn heuristics_fit(self) -> bool {
        forall|p: Point| #[trigger] self.has_cell(p) ==> self.heuristic(p) <= usize::MAX
    }

    /// What loading establishes: the bounding coordinate is taken from the
    /// row count and the first row, no cell is an overlay, and exactly one
    /// cell is the origin and one the target, at the recorded coordinates.
    pub open spec fn wf(self) -> bool {
        &&& self.cells.len() <= usize::MAX
        &&& forall|i: int| 0 <= i < self.cells.len() ==> (#[trigger] self.cells[i]).len() <= usize::MAX
        &&& self.bounds.x == self.cells.len()
        &&& self.cells.len() > 0 ==> self.bounds.y == self.cells[0].len()
        &&& self.has_cell(self.origin)
        &&& self.has_cell(self.target)
        &&& forall|p: Point| #[trigger]
            self.has_cell(p) ==> self.stored(p) != CellType::Path && (self.stored(p)
                == CellType::Origin <==> p == self.origin) && (self.stored(p) == CellType::Target
                <==> p == self.target)
    }

    /// The number of cells in the first `n` rows.
    pub open spec fn cells_in_rows(self, n: nat) -> nat
        decreases n,
    {
        if n == 0 {
            0
        } else {
            self.cells_in_rows((n - 1) as nat) + self.cells[n - 1].len()
        }
    }

    /// The number of cells of the maze.
    pub open spec fn cell_count(self) -> nat {
        self.cells_in_rows(self.cells.len())
    }

    /// The coordinates at which the first `n` rows hold a cell.
    pub open spec fn points_in_rows(self, n: nat) -> Set<Point> {
        Set::new(|p: Point| p.x < n && self.has_cell(p))
    }

    /// The coordinates at which the maze holds a cell.
    pub open spec fn points(self) -> Set<Point> {
        Set::new(|p: Point| self.has_cell(p))
    }

    /// Whether a search that stands on `a` may step to `b`.
    pub open spec fn steps_to(self, a: Point, b: Point) -> bool {
        adjacent(a, b) && self.passable(b)
    }

    /// Whether `walk` starts at the origin and goes on by steps that a search may take.
    pub open spec fn is_walk(self, walk: Seq<Point>) -> bool {
        &&& walk.len() > 0
        &&& walk[0] == self.origin
        &&& forall|i: int| 0 < i < walk.len() ==> self.steps_to(walk[i - 1], #[trigger] walk[i])
    }

    /// Whether some walk reaches `p`.
    pub open spec fn reaches(self, p: Point) -> bool {
        exists|walk: Seq<Point>| #[trigger] self.is_walk(walk) && walk.last() == p
    }

    /// Whether the origin and the target are connected by cells that a search may step onto.
    pub open spec fn connected(self) -> bool {
        self.reaches(self.target)
    }

    /// Whether `route` leads from the target back to the origin, each
    /// coordinate one step of a search after the one that follows it.
    pub open spec fn is_route(self, route: Seq<Point>) -> bool {
        &&& route.len() > 0
        &&& route[0] == self.target
        &&& route.last() == self.origin
        &&& forall|i: int| 0 <= i < route.len() - 1 ==> self.steps_to(route[i + 1], #[trigger] route[i])
    }

    proof fn lemma_points_in_rows_len(self, n: nat)
        requires
            self.wf(),
            n <= self.cells.len(),
        ensures
            self.points_in_rows(n).finite(),
            self.points_in_rows(n).len() == self.cells_in_rows(n),
        decreases n,
    {
        if n == 0 {
            assert(self.points_in_rows(n) =~= Set::<Point>::empty());
        } else {
            let above = (n - 1) as nat;
            let row = row_prefix(above as usize, self.cells[above as int].len());
            self.lemma_points_in_rows_len(above);
            lemma_row_prefix_len(above as usize, self.cells[above as int].len());
            lemma_set_disjoint_lens(self.points_in_rows(above), row);
            assert(self.points_in_rows(above).disjoint(row));
            assert(self.points_in_rows(n) =~= self.points_in_rows(above) + row);
        }
    }

    /// The cells of a loaded maze are finitely many, and `cell_count` counts them.
    pub proof fn lemma_points_counted(self)
        requires
            self.wf(),
        ensures
            self.points().finite(),
            self.points().len() == self.cell_count(),
    {
        self.lemma_points_in_rows_len(self.cells.len());
        assert(self.points() =~= self.points_in_rows(self.cells.len()));
    }

    /// A finite set of coordinates that all hold a cell has at most `cell_count` members.
    pub proof fn lemma_cells_bound(self, some: Set<Point>)
        requires
            self.wf(),
            forall|p: Point| some.contains(p) ==> self.has_cell(p),
        ensures
            some.finite(),
            some.len() <= self.cell_count(),
    {
        self.lemma_points_counted();
        vstd::set_lib::lemma_len_subset(some, self.points());
    }
}

} // verus!
