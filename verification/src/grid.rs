//! The grid model: the cells of a loaded map, with bounds and lookups.

use crate::cell::CellType;
use crate::error::GameMapError;
use crate::error::LoadError;
use crate::load::decode_line;
use crate::load::lemma_decode_line_cells;
use crate::load::lemma_decode_line_fails;
use crate::load::lemma_load_wf;
use crate::load::lemma_mark_row_fails;
use crate::load::lemma_scan_fails;
use crate::load::lines_fit;
use crate::load::load;
use crate::load::mark_row;
use crate::load::scan;
use crate::load::Marks;
use crate::load::Scan;
use crate::maze::Maze;
use crate::point::Point;
use vstd::prelude::*;

verus! {

/// The cells of a map, fixed once loaded, with the bounding coordinate and the
/// coordinates of the origin and the target.
#[derive(Debug)]
pub struct Grid {
    data: Vec<Vec<CellType>>,
    dimensions: Point,
    target: Point,
    origin: Point,
}

/// The rows of cells that nested vectors hold.
pub open spec fn rows_of(data: Seq<Vec<CellType>>) -> Seq<Seq<CellType>> {
    Seq::new(data.len(), |i: int| data[i]@)
}

/// The lines of text that strings hold.
pub open spec fn text_of(lines: Seq<String>) -> Seq<Seq<char>> {
    Seq::new(lines.len(), |i: int| lines[i]@)
}

/// Whether the sum of two squares fits the machine's word.
fn squares_fit(a: usize, b: usize) -> (fits: bool)
    ensures
        fits == (a * a + b * b <= usize::MAX),
{
    let wide_a = a as u128;
    let wide_b = b as u128;
    assert(wide_a * wide_a <= 0xFFFF_FFFF_FFFF_FFFF * 0xFFFF_FFFF_FFFF_FFFF) by (nonlinear_arith)
        requires
            wide_a <= 0xFFFF_FFFF_FFFF_FFFF,
    ;
    assert(wide_b * wide_b <= 0xFFFF_FFFF_FFFF_FFFF * 0xFFFF_FFFF_FFFF_FFFF) by (nonlinear_arith)
        requires
            wide_b <= 0xFFFF_FFFF_FFFF_FFFF,
    ;
    let limit = usize::MAX as u128;
    let square_a = wide_a * wide_a;
    let square_b = wide_b * wide_b;
    if square_a > limit || square_b > limit {
        false
    } else {
        square_a + square_b <= limit
    }
}

/// A number that lies within `reach` of zero has a square no greater than that of `reach`.
proof fn lemma_square_within(v: int, reach: int)
    requires
        -reach <= v <= reach,
    ensures
        v * v <= reach * reach,
{
    assert(v * v <= reach * reach) by (nonlinear_arith)
        requires
            -reach <= v <= reach,
    ;
}

impl View for Grid {
    type V = Maze;

    closed spec fn view(&self) -> Maze {
        Maze {
            cells: rows_of(self.data@),
            bounds: self.dimensions,
            origin: self.origin,
            target: self.target,
        }
    }
}

impl Grid {
    /// Whether the grid is one that loading hands out.
    pub open spec fn wf(&self) -> bool {
        self@.wf()
    }

    /// Loads a grid from the lines of a map file, one line for each row: `#`
    /// is a wall, `.` floor, `x` the target and `o` the origin. Rows need not
    /// be of one length; the bounding coordinate goes by the first.
    pub fn from_lines(lines: &Vec<String>) -> (res: Result<Grid, LoadError>)
        ensures
            match res {
                Ok(grid) => load(text_of(lines@)) == Ok::<Maze, LoadError>(grid@) && grid.wf(),
                Err(e) => load(text_of(lines@)) == Err::<Maze, LoadError>(e),
            },
    {
        let ghost text = text_of(lines@);
        let mut data: Vec<Vec<CellType>> = Vec::new();
        let mut target: Option<Point> = None;
        let mut origin: Option<Point> = None;
        let mut row: usize = 0;
        assert(rows_of(data@) =~= Seq::<Seq<CellType>>::empty());
        while row < lines.len()
            invariant
                row <= lines.len(),
                text == text_of(lines@),
                scan(text, row as nat) == Ok::<Scan, LoadError>(
                    Scan { cells: rows_of(data@), marks: Marks { target, origin } },
                ),
                forall|i: int| 0 <= i < row ==> (#[trigger] text[i]).len() <= usize::MAX,
            decreases lines.len() - row,
        {
            let line = lines[row].as_str();
            assert(line@ == text[row as int]);
            let mut cells: Vec<CellType> = Vec::new();
            for c in it: line.chars()
                invariant
                    row < lines.len(),
                    text == text_of(lines@),
                    line@ == text[row as int],
                    scan(text, row as nat) is Ok,
                    it.seq() == line@,
                    decode_line(line@.take(it.index() as int)) == Ok::<
                        Seq<CellType>,
                        crate::cell::ConversionError,
                    >(cells@),
            {
                let ghost upto = line@.take(it.index() as int + 1);
                assert(upto.drop_last() =~= line@.take(it.index() as int));
                assert(upto.last() == c);
                match CellType::try_from(c) {
                    Ok(cell) => {
                        cells.push(cell);
                    },
                    Err(e) => {
                        proof {
                            lemma_decode_line_fails(line@, it.index() as int + 1);
                            lemma_scan_fails(text, (row + 1) as nat, lines.len() as nat);
                        }
                        return Err(LoadError::Conversion(e));
                    },
                }
            }
            assert(line@.take(line@.len() as int) =~= line@);
            proof {
                lemma_decode_line_cells(line@);
            }
            let ghost before = Marks { target, origin };
            let mut col: usize = 0;
            while col < cells.len()
                invariant
                    col <= cells.len(),
                    row < lines.len(),
                    text == text_of(lines@),
                    line@ == text[row as int],
                    scan(text, row as nat) == Ok::<Scan, LoadError>(
                        Scan { cells: rows_of(data@), marks: before },
                    ),
                    decode_line(line@) == Ok::<Seq<CellType>, crate::cell::ConversionError>(cells@),
                    mark_row(before, cells@, row, col as nat) == Ok::<Marks, GameMapError>(
                        Marks { target, origin },
                    ),
                decreases cells.len() - col,
            {
                match cells[col] {
                    CellType::Target => {
                        if target.is_none() {
                            target = Some(Point::new(row, col));
                        } else {
                            proof {
                                lemma_mark_row_fails(
                                    before,
                                    cells@,
                                    row,
                                    (col + 1) as nat,
                                    cells@.len(),
                                );
                                lemma_scan_fails(text, (row + 1) as nat, lines.len() as nat);
                            }
                            return Err(LoadError::GameMap(GameMapError::MoreThanOneTarget));
                        }
                    },
                    CellType::Origin => {
                        if origin.is_none() {
                            origin = Some(Point::new(row, col));
                        } else {
                            proof {
                                lemma_mark_row_fails(
                                    before,
                                    cells@,
                                    row,
                                    (col + 1) as nat,
                                    cells@.len(),
                                );
                                lemma_scan_fails(text, (row + 1) as nat, lines.len() as nat);
                            }
                            return Err(LoadError::GameMap(GameMapError::MoreThanOneOrigin));
                        }
                    },
                    _ => {},
                }
                col = col + 1;
            }
            let ghost above = rows_of(data@);
            data.push(cells);
            assert(rows_of(data@) =~= above.push(cells@));
            row = row + 1;
        }
        let (target, origin) = match (target, origin) {
            (None, _) => {
                return Err(LoadError::GameMap(GameMapError::MissingTarget));
            },
            (Some(_), None) => {
                return Err(LoadError::GameMap(GameMapError::MissingOrigin));
            },
            (Some(target), Some(origin)) => (target, origin),
        };
        proof {
            assert(lines_fit(text));
            lemma_load_wf(text);
        }
        let dimensions = Point::from((data.len(), data[0].len()));
        Ok(Grid { data, dimensions, target, origin })
    }

    /// The bounding coordinate: the number of rows and the length of the first row.
    pub fn bounds(&self) -> (bounds: Point)
        ensures
            bounds == self@.bounds,
    {
        self.dimensions
    }

    pub fn origin(&self) -> (origin: Point)
        ensures
            origin == self@.origin,
    {
        self.origin
    }

    pub fn target(&self) -> (target: Point)
        ensures
            target == self@.target,
    {
        self.target
    }

    /// The cell at `p`, or `None` where `p` lies outside the bounding
    /// coordinate or its row is too short to hold it.
    pub fn get_point(&self, p: Point) -> (cell: Option<&CellType>)
        ensures
            match cell {
                Some(found) => self@.cell_at(p) == Some(*found),
                None => self@.cell_at(p) is None,
            },
    {
        if !self.dimensions.contains(&p) {
            return None;
        }
        if p.x >= self.data.len() {
            return None;
        }
        let row = &self.data[p.x];
        if p.y >= row.len() {
            return None;
        }
        Some(&row[p.y])
    }

    /// Whether the squared distance from every cell to the target fits the
    /// machine's word, as a search of the grid needs it.
    pub fn heuristics_fit(&self) -> (fits: bool)
        ensures
            fits == self@.heuristics_fit(),
    {
        let mut row: usize = 0;
        while row < self.data.len()
            invariant
                row <= self.data.len(),
                forall|p: Point|
                    p.x < row && #[trigger] self@.has_cell(p) ==> self@.heuristic(p) <= usize::MAX,
            decreases self.data.len() - row,
        {
            let len = self.data[row].len();
            if len > 0 {
                let last = len - 1;
                let down = if row > self.target.x {
                    row - self.target.x
                } else {
                    self.target.x - row
                };
                let right = if last > self.target.y {
                    last - self.target.y
                } else {
                    0
                };
                let across = if self.target.y > right {
                    self.target.y
                } else {
                    right
                };
                let ghost dx = self.target.x - row;
                if !squares_fit(down, across) {
                    proof {
                        let furthest = Point {
                            x: row,
                            y: if across == self.target.y {
                                0
                            } else {
                                last
                            },
                        };
                        let dy = self.target.y - furthest.y;
                        assert(self@.has_cell(furthest));
                        assert(dx * dx == down * down) by (nonlinear_arith)
                            requires
                                dx == down || dx == -down,
                        ;
                        assert(dy * dy == across * across) by (nonlinear_arith)
                            requires
                                dy == across || dy == -across,
                        ;
                        assert(self@.heuristic(furthest) > usize::MAX);
                    }
                    return false;
                }
                proof {
                    assert forall|p: Point| p.x == row && #[trigger] self@.has_cell(p) implies self@.heuristic(
                        p,
                    ) <= usize::MAX by {
                        let dy = self.target.y - p.y;
                        assert(p.y < len);
                        assert(-across <= dy <= across);
                        lemma_square_within(dy, across as int);
                        assert(dx * dx == down * down) by (nonlinear_arith)
                            requires
                                dx == down || dx == -down,
                        ;
                        assert(crate::point::squared_distance(self.target, p) == dx * dx + dy * dy);
                        assert(0 <= dx * dx + dy * dy) by (nonlinear_arith);
                    }
                }
            }
            row = row + 1;
        }
        true
    }

    /// The squared distance from `p` to the target.
    pub fn distance_to_target(&self, p: Point) -> (dist: usize)
        requires
            self@.heuristic(p) <= usize::MAX,
        ensures
            dist == self@.heuristic(p),
    {
        self.target.squared_distance(p)
    }
}

} // verus!
