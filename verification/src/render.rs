//! A map as text: one line for each row, newline-terminated, with `*` on the
//! coordinates of a route that was found.

use crate::cell::decode;
use crate::cell::glyph;
use crate::cell::CellType;
use crate::cell::ConversionError;
use crate::load::decode_line;
use crate::load::lemma_decode_line_cells;
use crate::load::lemma_load_wf;
use crate::load::lines_fit;
use crate::load::load;
use crate::maze::Maze;
use crate::point::Point;
use crate::game_map::GameMapView;
use vstd::prelude::*;

verus! {

impl GameMapView {
    /// Whether `p` lies on the route that was found.
    pub open spec fn on_route(self, p: Point) -> bool {
        self.route matches Some(route) && route.contains(p)
    }

    /// The character shown for the cell at `p`.
    pub open spec fn shown(self, p: Point) -> char {
        if self.on_route(p) {
            glyph(CellType::Path)
        } else {
            glyph(self.maze.stored(p))
        }
    }

    /// The text of the first `n` columns of row `x`. A column at which the
    /// row holds no cell gives no character.
    pub open spec fn render_row(self, x: usize, n: nat) -> Seq<char>
        decreases n,
    {
        if n == 0 {
            Seq::empty()
        } else {
            let p = Point { x, y: (n - 1) as usize };
            let before = self.render_row(x, (n - 1) as nat);
            if self.maze.cell_at(p) is Some {
                before.push(self.shown(p))
            } else {
                before
            }
        }
    }

    /// The text of the first `n` rows: each row up to the bounding column, then a newline.
    pub open spec fn render_rows(self, n: nat) -> Seq<char>
        decreases n,
    {
        if n == 0 {
            Seq::empty()
        } else {
            self.render_rows((n - 1) as nat) + self.render_row(
                (n - 1) as usize,
                self.maze.bounds.y as nat,
            ) + seq!['\n']
        }
    }

    /// The text of the map.
    pub open spec fn render(self) -> Seq<char> {
        self.render_rows(self.maze.bounds.x as nat)
    }
}

/// The first `n` lines, each followed by a newline.
pub open spec fn joined(lines: Seq<Seq<char>>, n: nat) -> Seq<char>
    decreases n,
{
    if n == 0 {
        Seq::empty()
    } else {
        joined(lines, (n - 1) as nat) + lines[n - 1] + seq!['\n']
    }
}

/// The map as it stands when `lines` were loaded and no search was made.
pub open spec fn fresh(maze: Maze) -> GameMapView {
    GameMapView { maze, solved: false, route: None }
}

proof fn lemma_row_restored(lines: Seq<Seq<char>>, x: usize, n: nat)
    requires
        lines_fit(lines),
        load(lines) is Ok,
        x < lines.len(),
        n <= load(lines)->Ok_0.bounds.y,
    ensures
        fresh(load(lines)->Ok_0).render_row(x, n) == if n <= lines[x as int].len() {
            lines[x as int].take(n as int)
        } else {
            lines[x as int]
        },
    decreases n,
{
    let maze = load(lines)->Ok_0;
    let map = fresh(maze);
    let line = lines[x as int];
    lemma_load_wf(lines);
    assert(decode_line(line) == Ok::<Seq<CellType>, ConversionError>(maze.cells[x as int]));
    lemma_decode_line_cells(line);
    if n == 0 {
        assert(line.take(0) =~= Seq::<char>::empty());
    } else {
        let fewer = (n - 1) as nat;
        lemma_row_restored(lines, x, fewer);
        let p = Point { x, y: fewer as usize };
        if n <= line.len() {
            assert(maze.has_cell(p));
            assert(decode(line[fewer as int]) == Ok::<CellType, ConversionError>(
                maze.cells[x as int][fewer as int],
            ));
            assert(map.shown(p) == line[fewer as int]);
            assert(line.take(n as int) =~= line.take(fewer as int).push(line[fewer as int]));
        } else {
            assert(!maze.has_cell(p));
            if fewer == line.len() {
                assert(line.take(fewer as int) =~= line);
            }
        }
    }
}

proof fn lemma_rows_restored(lines: Seq<Seq<char>>, n: nat)
    requires
        lines_fit(lines),
        load(lines) is Ok,
        n <= lines.len(),
        forall|i: int| 0 <= i < lines.len() ==> (#[trigger] lines[i]).len() <= lines[0].len(),
    ensures
        fresh(load(lines)->Ok_0).render_rows(n) == joined(lines, n),
    decreases n,
{
    if n > 0 {
        let fewer = (n - 1) as nat;
        lemma_rows_restored(lines, fewer);
        lemma_load_wf(lines);
        let maze = load(lines)->Ok_0;
        assert(decode_line(lines[0]) == Ok::<Seq<CellType>, ConversionError>(maze.cells[0]));
        lemma_decode_line_cells(lines[0]);
        lemma_row_restored(lines, fewer as usize, maze.bounds.y as nat);
        let line = lines[fewer as int];
        assert(line.take(line.len() as int) =~= line);
    }
}

/// The text of a map on which no search was made is the text it was loaded
/// from, line for line, where no line is longer than the first.
pub proof fn lemma_render_restores_lines(lines: Seq<Seq<char>>)
    requires
        lines_fit(lines),
        load(lines) is Ok,
        forall|i: int| 0 <= i < lines.len() ==> (#[trigger] lines[i]).len() <= lines[0].len(),
    ensures
        fresh(load(lines)->Ok_0).render() == joined(lines, lines.len()),
{
    lemma_load_wf(lines);
    lemma_rows_restored(lines, lines.len());
}

} // verus!
