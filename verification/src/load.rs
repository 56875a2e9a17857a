//! What loading makes of the lines of a map file.
//!
//! The lines are read top to bottom. A line is decoded as a whole, then its
//! cells are examined left to right; the first failure met on the way is the
//! result. That a target or an origin is missing shows only at the end.

use crate::cell::decode;
use crate::cell::CellType;
use crate::cell::ConversionError;
use crate::error::GameMapError;
use crate::error::LoadError;
use crate::maze::Maze;
use crate::point::Point;
use vstd::prelude::*;

verus! {

/// The coordinates of the target and of the origin, as far as they were met.
pub struct Marks {
    pub target: Option<Point>,
    pub origin: Option<Point>,
}

/// What the lines read so far have given.
pub struct Scan {
    pub cells: Seq<Seq<CellType>>,
    pub marks: Marks,
}

/// The cells of a line, or its first character that stands for no cell.
pub open spec fn decode_line(line: Seq<char>) -> Result<Seq<CellType>, ConversionError>
    decreases line.len(),
{
    if line.len() == 0 {
        Ok(Seq::empty())
    } else {
        match decode_line(line.drop_last()) {
            Err(e) => Err(e),
            Ok(cells) => match decode(line.last()) {
                Err(e) => Err(e),
                Ok(cell) => Ok(cells.push(cell)),
            },
        }
    }
}

/// The marks after the cell at `p` was examined: a target or an origin is
/// recorded where none was recorded before, and is one too many otherwise.
pub open spec fn mark(marks: Marks, cell: CellType, p: Point) -> Result<Marks, GameMapError> {
    match cell {
        CellType::Target => if marks.target is None {
            Ok(Marks { target: Some(p), ..marks })
        } else {
            Err(GameMapError::MoreThanOneTarget)
        },
        CellType::Origin => if marks.origin is None {
            Ok(Marks { origin: Some(p), ..marks })
        } else {
            Err(GameMapError::MoreThanOneOrigin)
        },
        _ => Ok(marks),
    }
}

/// The marks after the first `n` cells of row `x` were examined.
pub open spec fn mark_row(marks: Marks, row: Seq<CellType>, x: usize, n: nat) -> Result<
    Marks,
    GameMapError,
>
    decreases n,
{
    if n == 0 {
        Ok(marks)
    } else {
        match mark_row(marks, row, x, (n - 1) as nat) {
            Err(e) => Err(e),
            Ok(before) => mark(before, row[n - 1], Point { x, y: (n - 1) as usize }),
        }
    }
}

/// What the first `n` lines give.
pub open spec fn scan(lines: Seq<Seq<char>>, n: nat) -> Result<Scan, LoadError>
    decreases n,
{
    if n == 0 {
        Ok(Scan { cells: Seq::empty(), marks: Marks { target: None, origin: None } })
    } else {
        match scan(lines, (n - 1) as nat) {
            Err(e) => Err(e),
            Ok(before) => match decode_line(lines[n - 1]) {
                Err(e) => Err(LoadError::Conversion(e)),
                Ok(row) => match mark_row(before.marks, row, (n - 1) as usize, row.len()) {
                    Err(e) => Err(LoadError::GameMap(e)),
                    Ok(marks) => Ok(Scan { cells: before.cells.push(row), marks }),
                },
            },
        }
    }
}

/// The maze that the lines of a map file describe, or why they describe none.
/// Lines that hold no target, among them no lines at all, miss the target.
pub open spec fn load(lines: Seq<Seq<char>>) -> Result<Maze, LoadError> {
    match scan(lines, lines.len()) {
        Err(e) => Err(e),
        Ok(found) => if found.marks.target is None {
            Err(LoadError::GameMap(GameMapError::MissingTarget))
        } else if found.marks.origin is None {
            Err(LoadError::GameMap(GameMapError::MissingOrigin))
        } else {
            Ok(
                Maze {
                    cells: found.cells,
                    bounds: Point { x: lines.len() as usize, y: found.cells[0].len() as usize },
                    origin: found.marks.origin->0,
                    target: found.marks.target->0,
                },
            )
        },
    }
}

/// Whether lines are no more and no longer than a machine can hold.
pub open spec fn lines_fit(lines: Seq<Seq<char>>) -> bool {
    &&& lines.len() <= usize::MAX
    &&& forall|i: int| 0 <= i < lines.len() ==> (#[trigger] lines[i]).len() <= usize::MAX
}

/// Whether `cells` hold a cell at `p`.
pub open spec fn holds(cells: Seq<Seq<CellType>>, p: Point) -> bool {
    p.x < cells.len() && p.y < cells[p.x as int].len()
}

/// Whether `marks` record just what `cells` hold: the target and the origin
/// where there is exactly one of them, nothing where there is none.
pub open spec fn marks_sound(cells: Seq<Seq<CellType>>, marks: Marks) -> bool {
    &&& marks.target matches Some(p) ==> holds(cells, p)
    &&& marks.origin matches Some(p) ==> holds(cells, p)
    &&& forall|p: Point| #[trigger]
        holds(cells, p) ==> {
            let cell = cells[p.x as int][p.y as int];
            &&& cell != CellType::Path
            &&& cell == CellType::Target <==> marks.target == Some(p)
            &&& cell == CellType::Origin <==> marks.origin == Some(p)
        }
}

/// A line that decodes gives one cell for each character, the cell that the
/// character stands for.
pub proof fn lemma_decode_line_cells(line: Seq<char>)
    requires
        decode_line(line) is Ok,
    ensures
        decode_line(line)->Ok_0.len() == line.len(),
        forall|j: int|
            0 <= j < line.len() ==> decode(line[j]) == Ok::<CellType, ConversionError>(
                #[trigger] decode_line(line)->Ok_0[j],
            ),
    decreases line.len(),
{
    if line.len() > 0 {
        lemma_decode_line_cells(line.drop_last());
    }
}

/// A failure in the first characters of a line is the failure of the line.
pub proof fn lemma_decode_line_fails(line: Seq<char>, n: int)
    requires
        0 <= n <= line.len(),
        decode_line(line.take(n)) is Err,
    ensures
        decode_line(line) == decode_line(line.take(n)),
    decreases line.len(),
{
    if n == line.len() {
        assert(line.take(n) =~= line);
    } else {
        assert(line.drop_last().take(n) =~= line.take(n));
        lemma_decode_line_fails(line.drop_last(), n);
    }
}

/// A failure among the first cells of a row is the failure of the row.
pub proof fn lemma_mark_row_fails(marks: Marks, row: Seq<CellType>, x: usize, n: nat, m: nat)
    requires
        n <= m,
        mark_row(marks, row, x, n) is Err,
    ensures
        mark_row(marks, row, x, m) == mark_row(marks, row, x, n),
    decreases m,
{
    if n < m {
        lemma_mark_row_fails(marks, row, x, n, (m - 1) as nat);
    }
}

/// A failure in the first lines is the failure of all the lines.
pub proof fn lemma_scan_fails(lines: Seq<Seq<char>>, n: nat, m: nat)
    requires
        n <= m,
        scan(lines, n) is Err,
    ensures
        scan(lines, m) == scan(lines, n),
    decreases m,
{
    if n < m {
        lemma_scan_fails(lines, n, (m - 1) as nat);
    }
}

/// Examining the cells of a row keeps the marks sound: after the first `n`
/// cells they record what the rows above and those cells hold.
pub proof fn lemma_mark_row_sound(above: Seq<Seq<CellType>>, marks: Marks, row: Seq<CellType>, n: nat)
    requires
        above.len() <= usize::MAX,
        n <= row.len() <= usize::MAX,
        marks_sound(above, marks),
        forall|j: int| 0 <= j < row.len() ==> row[j] != CellType::Path,
        mark_row(marks, row, above.len() as usize, n) is Ok,
    ensures
        marks_sound(above.push(row.take(n as int)), mark_row(marks, row, above.len() as usize, n)->Ok_0),
    decreases n,
{
    let x = above.len() as usize;
    let now = above.push(row.take(n as int));
    let after = mark_row(marks, row, x, n)->Ok_0;
    if n == 0 {
        assert forall|p: Point| #[trigger] holds(now, p) implies holds(above, p) && now[p.x as int][p.y as int]
            == above[p.x as int][p.y as int] by {}
        if marks.target is Some {
            assert(holds(above, marks.target->0));
        }
        if marks.origin is Some {
            assert(holds(above, marks.origin->0));
        }
    } else {
        let fewer = (n - 1) as nat;
        lemma_mark_row_sound(above, marks, row, fewer);
        let before = mark_row(marks, row, x, fewer)->Ok_0;
        let earlier = above.push(row.take(fewer as int));
        let added = Point { x, y: fewer as usize };
        assert(holds(now, added));
        assert(!holds(earlier, added));
        assert forall|p: Point| #[trigger] holds(now, p) implies {
            let cell = now[p.x as int][p.y as int];
            &&& cell != CellType::Path
            &&& cell == CellType::Target <==> after.target == Some(p)
            &&& cell == CellType::Origin <==> after.origin == Some(p)
        } by {
            if p == added {
                assert(now[p.x as int][p.y as int] == row[fewer as int]);
                if before.target is Some {
                    assert(holds(earlier, before.target->0));
                }
                if before.origin is Some {
                    assert(holds(earlier, before.origin->0));
                }
            } else {
                assert(holds(earlier, p));
                assert(now[p.x as int][p.y as int] == earlier[p.x as int][p.y as int]);
            }
        }
        if before.target is Some {
            assert(holds(earlier, before.target->0));
        }
        if before.origin is Some {
            assert(holds(earlier, before.origin->0));
        }
    }
}

/// Lines that scan give one row for each line, the cells that its characters
/// stand for, and sound marks.
pub proof fn lemma_scan_sound(lines: Seq<Seq<char>>, n: nat)
    requires
        lines_fit(lines),
        n <= lines.len(),
        scan(lines, n) is Ok,
    ensures
        scan(lines, n)->Ok_0.cells.len() == n,
        forall|i: int|
            0 <= i < n ==> decode_line(lines[i]) == Ok::<Seq<CellType>, ConversionError>(
                #[trigger] scan(lines, n)->Ok_0.cells[i],
            ),
        marks_sound(scan(lines, n)->Ok_0.cells, scan(lines, n)->Ok_0.marks),
    decreases n,
{
    if n > 0 {
        let fewer = (n - 1) as nat;
        lemma_scan_sound(lines, fewer);
        let before = scan(lines, fewer)->Ok_0;
        let row = decode_line(lines[fewer as int])->Ok_0;
        lemma_decode_line_cells(lines[fewer as int]);
        assert forall|j: int| 0 <= j < row.len() implies row[j] != CellType::Path by {
            assert(decode(lines[fewer as int][j]) == Ok::<CellType, ConversionError>(row[j]));
        }
        lemma_mark_row_sound(before.cells, before.marks, row, row.len());
        assert(row.take(row.len() as int) =~= row);
    }
}

/// Lines that load describe a well-formed maze, whose rows are the cells that
/// the characters of the lines stand for.
pub proof fn lemma_load_wf(lines: Seq<Seq<char>>)
    requires
        lines_fit(lines),
        load(lines) is Ok,
    ensures
        load(lines)->Ok_0.wf(),
        load(lines)->Ok_0.cells.len() == lines.len(),
        forall|i: int|
            0 <= i < lines.len() ==> decode_line(lines[i]) == Ok::<Seq<CellType>, ConversionError>(
                #[trigger] load(lines)->Ok_0.cells[i],
            ),
{
    lemma_scan_sound(lines, lines.len());
    let found = scan(lines, lines.len())->Ok_0;
    let maze = load(lines)->Ok_0;
    assert(holds(found.cells, maze.target));
    assert(holds(found.cells, maze.origin));
    assert forall|i: int| 0 <= i < maze.cells.len() implies (#[trigger] maze.cells[i]).len()
        <= usize::MAX by {
        assert(decode_line(lines[i]) == Ok::<Seq<CellType>, ConversionError>(found.cells[i]));
        lemma_decode_line_cells(lines[i]);
    }
    assert forall|p: Point| #[trigger] maze.has_cell(p) implies maze.stored(p) != CellType::Path && (
    maze.stored(p) == CellType::Origin <==> p == maze.origin) && (maze.stored(p) == CellType::Target
        <==> p == maze.target) by {
        assert(holds(found.cells, p));
    }
}

/// Whether the lines hold a character at `p`.
pub open spec fn in_text(lines: Seq<Seq<char>>, p: Point) -> bool {
    p.x < lines.len() && p.y < lines[p.x as int].len()
}

/// The character that the lines hold at `p`.
pub open spec fn char_at(lines: Seq<Seq<char>>, p: Point) -> char
    recommends
        in_text(lines, p),
{
    lines[p.x as int][p.y as int]
}

/// Whether every character of the lines stands for a cell.
pub open spec fn all_decode(lines: Seq<Seq<char>>) -> bool {
    forall|p: Point| #[trigger] in_text(lines, p) ==> decode(char_at(lines, p)) is Ok
}

/// Whether the lines hold the character `c` at `p` and nowhere else.
pub open spec fn only_at(lines: Seq<Seq<char>>, c: char, p: Point) -> bool {
    &&& in_text(lines, p)
    &&& char_at(lines, p) == c
    &&& forall|q: Point| #[trigger] in_text(lines, q) && char_at(lines, q) == c ==> q == p
}

/// Whether the lines hold the character `c` exactly once.
pub open spec fn exactly_one(lines: Seq<Seq<char>>, c: char) -> bool {
    exists|p: Point| #[trigger] only_at(lines, c, p)
}

proof fn lemma_decode_line_succeeds(line: Seq<char>)
    requires
        forall|j: int| 0 <= j < line.len() ==> decode(#[trigger] line[j]) is Ok,
    ensures
        decode_line(line) is Ok,
    decreases line.len(),
{
    if line.len() > 0 {
        lemma_decode_line_succeeds(line.drop_last());
        assert(decode(line[line.len() - 1]) is Ok);
    }
}

proof fn lemma_mark_row_succeeds(
    lines: Seq<Seq<char>>,
    target: Point,
    origin: Point,
    n: nat,
    k: nat,
)
    requires
        lines_fit(lines),
        only_at(lines, 'x', target),
        only_at(lines, 'o', origin),
        n < lines.len(),
        scan(lines, n) is Ok,
        decode_line(lines[n as int]) is Ok,
        k <= lines[n as int].len(),
    ensures
        mark_row(
            scan(lines, n)->Ok_0.marks,
            decode_line(lines[n as int])->Ok_0,
            n as usize,
            k,
        ) is Ok,
    decreases k,
{
    if k > 0 {
        let fewer = (k - 1) as nat;
        lemma_mark_row_succeeds(lines, target, origin, n, fewer);
        lemma_scan_sound(lines, n);
        let above = scan(lines, n)->Ok_0.cells;
        let marks = scan(lines, n)->Ok_0.marks;
        let row = decode_line(lines[n as int])->Ok_0;
        lemma_decode_line_cells(lines[n as int]);
        assert forall|j: int| 0 <= j < row.len() implies row[j] != CellType::Path by {
            assert(decode(lines[n as int][j]) == Ok::<CellType, ConversionError>(row[j]));
        }
        lemma_mark_row_sound(above, marks, row, fewer);
        let before = mark_row(marks, row, n as usize, fewer)->Ok_0;
        let earlier = above.push(row.take(fewer as int));
        let here = Point { x: n as usize, y: fewer as usize };
        assert(in_text(lines, here));
        assert(decode(lines[n as int][fewer as int]) == Ok::<CellType, ConversionError>(
            row[fewer as int],
        ));
        assert(!holds(earlier, here));
        if row[fewer as int] == CellType::Target && before.target is Some {
            let seen = before.target->0;
            assert(holds(earlier, seen));
            lemma_held_cell_decoded(lines, n, fewer, seen);
            assert(in_text(lines, seen) && char_at(lines, seen) == 'x');
            assert(char_at(lines, here) == 'x');
            assert(false);
        }
        if row[fewer as int] == CellType::Origin && before.origin is Some {
            let seen = before.origin->0;
            assert(holds(earlier, seen));
            lemma_held_cell_decoded(lines, n, fewer, seen);
            assert(in_text(lines, seen) && char_at(lines, seen) == 'o');
            assert(char_at(lines, here) == 'o');
            assert(false);
        }
    }
}

/// A cell of the rows read so far is the cell that its character stands for.
proof fn lemma_held_cell_decoded(lines: Seq<Seq<char>>, n: nat, k: nat, p: Point)
    requires
        lines_fit(lines),
        n < lines.len(),
        scan(lines, n) is Ok,
        decode_line(lines[n as int]) is Ok,
        k <= lines[n as int].len(),
        holds(
            scan(lines, n)->Ok_0.cells.push(decode_line(lines[n as int])->Ok_0.take(k as int)),
            p,
        ),
    ensures
        in_text(lines, p),
        decode(char_at(lines, p)) == Ok::<CellType, ConversionError>(
            scan(lines, n)->Ok_0.cells.push(decode_line(lines[n as int])->Ok_0.take(k as int))[p.x as int][p.y as int],
        ),
{
    lemma_scan_sound(lines, n);
    let above = scan(lines, n)->Ok_0.cells;
    lemma_decode_line_cells(lines[n as int]);
    if p.x < n {
        assert(decode_line(lines[p.x as int]) == Ok::<Seq<CellType>, ConversionError>(above[p.x as int]));
        lemma_decode_line_cells(lines[p.x as int]);
    }
}

proof fn lemma_scan_succeeds(lines: Seq<Seq<char>>, target: Point, origin: Point, n: nat)
    requires
        lines_fit(lines),
        all_decode(lines),
        only_at(lines, 'x', target),
        only_at(lines, 'o', origin),
        n <= lines.len(),
    ensures
        scan(lines, n) is Ok,
    decreases n,
{
    if n > 0 {
        let fewer = (n - 1) as nat;
        lemma_scan_succeeds(lines, target, origin, fewer);
        let line = lines[fewer as int];
        assert forall|j: int| 0 <= j < line.len() implies decode(#[trigger] line[j]) is Ok by {
            let p = Point { x: fewer as usize, y: j as usize };
            assert(in_text(lines, p));
        }
        lemma_decode_line_succeeds(line);
        lemma_decode_line_cells(line);
        lemma_mark_row_succeeds(lines, target, origin, fewer, line.len());
    }
}

/// Lines load exactly when each of their characters stands for a cell and
/// they hold exactly one target and exactly one origin. The maze then has
/// its target and its origin where the lines hold `x` and `o`.
pub proof fn lemma_load_succeeds_iff(lines: Seq<Seq<char>>)
    requires
        lines_fit(lines),
    ensures
        load(lines) is Ok <==> all_decode(lines) && exactly_one(lines, 'x') && exactly_one(
            lines,
            'o',
        ),
        load(lines) matches Ok(maze) ==> only_at(lines, 'x', maze.target) && only_at(
            lines,
            'o',
            maze.origin,
        ),
{
    if load(lines) is Ok {
        let maze = load(lines)->Ok_0;
        lemma_load_wf(lines);
        assert forall|p: Point| #[trigger] in_text(lines, p) implies maze.has_cell(p) && decode(
            char_at(lines, p),
        ) == Ok::<CellType, ConversionError>(maze.stored(p)) by {
            assert(decode_line(lines[p.x as int]) == Ok::<Seq<CellType>, ConversionError>(
                maze.cells[p.x as int],
            ));
            lemma_decode_line_cells(lines[p.x as int]);
        }
        assert(decode_line(lines[maze.target.x as int]) == Ok::<Seq<CellType>, ConversionError>(
            maze.cells[maze.target.x as int],
        ));
        lemma_decode_line_cells(lines[maze.target.x as int]);
        assert(decode_line(lines[maze.origin.x as int]) == Ok::<Seq<CellType>, ConversionError>(
            maze.cells[maze.origin.x as int],
        ));
        lemma_decode_line_cells(lines[maze.origin.x as int]);
        assert(in_text(lines, maze.target));
        assert(in_text(lines, maze.origin));
        assert(only_at(lines, 'x', maze.target));
        assert(only_at(lines, 'o', maze.origin));
    }
    if all_decode(lines) && exactly_one(lines, 'x') && exactly_one(lines, 'o') {
        let target = choose|p: Point| #[trigger] only_at(lines, 'x', p);
        let origin = choose|p: Point| #[trigger] only_at(lines, 'o', p);
        lemma_scan_succeeds(lines, target, origin, lines.len());
        lemma_scan_sound(lines, lines.len());
        let found = scan(lines, lines.len())->Ok_0;
        assert(decode_line(lines[target.x as int]) == Ok::<Seq<CellType>, ConversionError>(
            found.cells[target.x as int],
        ));
        lemma_decode_line_cells(lines[target.x as int]);
        assert(decode_line(lines[origin.x as int]) == Ok::<Seq<CellType>, ConversionError>(
            found.cells[origin.x as int],
        ));
        lemma_decode_line_cells(lines[origin.x as int]);
        assert(holds(found.cells, target));
        assert(holds(found.cells, origin));
        assert(decode(char_at(lines, target)) == Ok::<CellType, ConversionError>(
            found.cells[target.x as int][target.y as int],
        ));
        assert(decode(char_at(lines, origin)) == Ok::<CellType, ConversionError>(
            found.cells[origin.x as int][origin.y as int],
        ));
    }
}

} // verus!
