//! A map: a grid, and the route that a search of it has found.

use crate::cell::glyph;
use crate::cell::CellType;
use crate::engine::Search;
use crate::error::GameMapError;
use crate::error::LoadError;
use crate::grid::text_of;
use crate::grid::Grid;
use crate::guarantees::lemma_route_iff_connected;
use crate::guarantees::lemma_sound_parents_descend;
use crate::load::load;
use crate::maze::Maze;
use crate::path::Path;
use crate::path::PointSet;
use crate::point::Point;
use crate::search::outcome;
use crate::search::search_route;
use crate::search::SearchPhase;
use vstd::prelude::*;
use vstd::string::StringExecFns;

verus! {

/// Whether a search of the map has found a route.
#[derive(Debug, Clone, Copy, PartialEq, Eq, Structural)]
pub enum GameMapStatus {
    Unsolved,
    Solved,
}

impl Default for GameMapStatus {
    fn default() -> (status: Self)
        ensures
            status == GameMapStatus::Unsolved,
    {
        Self::Unsolved
    }
}

/// A loaded map. It is unsolved until a search of it finds a route, and
/// solved from then on.
#[derive(Debug)]
pub struct GameMap {
    grid: Grid,
    status: GameMapStatus,
    path: Option<Path>,
}

/// A map as a mathematical object: the maze, and the route once a search has found one.
pub struct GameMapView {
    pub maze: Maze,
    pub solved: bool,
    pub route: Option<Seq<Point>>,
}

impl GameMapView {
    /// A map is solved exactly when it holds a route, and the route it holds
    /// is the one that the search of its maze finds.
    pub open spec fn wf(self) -> bool {
        &&& self.maze.wf()
        &&& self.solved <==> self.route is Some
        &&& self.route is Some ==> self.route == search_route(self.maze)
    }
}

impl View for GameMap {
    type V = GameMapView;

    closed spec fn view(&self) -> GameMapView {
        GameMapView {
            maze: self.grid@,
            solved: self.status == GameMapStatus::Solved,
            route: match self.path {
                Some(path) => Some(path@),
                None => None,
            },
        }
    }
}

/// The text that a cell is written as.
fn glyph_text(cell: CellType) -> (text: &'static str)
    ensures
        text@ == seq![glyph(cell)],
{
    proof {
        reveal_strlit("#");
        reveal_strlit(".");
        reveal_strlit("x");
        reveal_strlit("o");
        reveal_strlit("*");
    }
    let text = match cell {
        CellType::Wall => "#",
        CellType::Floor => ".",
        CellType::Target => "x",
        CellType::Origin => "o",
        CellType::Path => "*",
    };
    assert(text@ =~= seq![glyph(cell)]);
    text
}

impl GameMap {
    /// Whether the map is one that loading hands out and searching keeps.
    pub open spec fn wf(&self) -> bool {
        self@.wf()
    }

    /// Loads a map from the lines of a map file. The map is unsolved.
    pub fn from_lines(lines: &Vec<String>) -> (res: Result<GameMap, LoadError>)
        ensures
            match res {
                Ok(map) => load(text_of(lines@)) == Ok::<Maze, LoadError>(map@.maze) && map.wf()
                    && !map@.solved && map@.route is None,
                Err(e) => load(text_of(lines@)) == Err::<Maze, LoadError>(e),
            },
    {
        match Grid::from_lines(lines) {
            Ok(grid) => Ok(GameMap { grid, status: GameMapStatus::default(), path: None }),
            Err(e) => Err(e),
        }
    }

    pub fn grid(&self) -> (grid: &Grid)
        ensures
            grid@ == self@.maze,
    {
        &self.grid
    }

    /// The bounding coordinate: the number of rows and the length of the first row.
    pub fn dimensions(&self) -> (bounds: Point)
        ensures
            bounds == self@.maze.bounds,
    {
        self.grid.bounds()
    }

    pub fn origin(&self) -> (origin: Point)
        ensures
            origin == self@.maze.origin,
    {
        self.grid.origin()
    }

    pub fn target(&self) -> (target: Point)
        ensures
            target == self@.maze.target,
    {
        self.grid.target()
    }

    pub fn status(&self) -> (status: GameMapStatus)
        ensures
            status == if self@.solved {
                GameMapStatus::Solved
            } else {
                GameMapStatus::Unsolved
            },
    {
        self.status
    }

    /// The route that a search has found, from the target back to the origin.
    pub fn path(&self) -> (path: Option<&Path>)
        ensures
            match path {
                Some(found) => self@.route == Some(found@),
                None => self@.route is None,
            },
    {
        self.path.as_ref()
    }

    /// The cell at `p`, or `None` where `p` lies outside the bounding
    /// coordinate or its row is too short to hold it.
    pub fn get_point(&self, p: Point) -> (cell: Option<&CellType>)
        ensures
            match cell {
                Some(found) => self@.maze.cell_at(p) == Some(*found),
                None => self@.maze.cell_at(p) is None,
            },
    {
        self.grid.get_point(p)
    }

    /// The squared distance from `p` to the target.
    pub fn distance_to_target(&self, p: Point) -> (dist: usize)
        requires
            self@.maze.heuristic(p) <= usize::MAX,
        ensures
            dist == self@.maze.heuristic(p),
    {
        self.grid.distance_to_target(p)
    }

    /// Whether the squared distance from every cell to the target fits the
    /// machine's word, as `solve` needs it.
    pub fn heuristics_fit(&self) -> (fits: bool)
        ensures
            fits == self@.maze.heuristics_fit(),
    {
        self.grid.heuristics_fit()
    }

    /// Searches a route from the origin to the target and keeps it.
    ///
    /// A solved map is left as it is and the call fails with `AlreadySolved`.
    /// On an unsolved map the search runs to its end. It finds a route
    /// exactly where walks connect the origin and the target; the map then
    /// holds that route, which leads from the target back to the origin, and
    /// is solved. Where there is no such walk the call fails with
    /// `CouldNotFindPath` and the map is left as it is.
    pub fn solve(&mut self) -> (res: Result<(), GameMapError>)
        requires
            old(self).wf(),
            old(self)@.maze.heuristics_fit(),
        ensures
            final(self).wf(),
            final(self)@.maze == old(self)@.maze,
            old(self)@.solved ==> res == Err::<(), GameMapError>(GameMapError::AlreadySolved)
                && final(self)@ == old(self)@,
            !old(self)@.solved ==> match search_route(old(self)@.maze) {
                Some(route) => res is Ok && final(self)@.solved && final(self)@.route == Some(
                    route,
                ),
                None => res == Err::<(), GameMapError>(GameMapError::CouldNotFindPath)
                    && final(self)@ == old(self)@,
            },
            !old(self)@.solved ==> (res is Ok <==> old(self)@.maze.connected()),
            res is Ok ==> final(self)@.route is Some && final(self)@.maze.is_route(
                final(self)@.route->0,
            ),
    {
        if self.status == GameMapStatus::Solved {
            return Err(GameMapError::AlreadySolved);
        }
        proof {
            lemma_route_iff_connected(self@.maze);
        }
        let mut search = Search::new(&self.grid);
        search.run(&self.grid);
        assert(search@ == outcome(self@.maze));
        if search.phase() != SearchPhase::Found {
            return Err(GameMapError::CouldNotFindPath);
        }
        proof {
            search.lemma_wf_sound(self@.maze);
            lemma_sound_parents_descend(self@.maze, search@);
        }
        match search.cache().get_reverse_path(self.grid.target()) {
            Some(path) => {
                self.path = Some(path);
                self.status = GameMapStatus::Solved;
                Ok(())
            },
            None => Err(GameMapError::CouldNotFindPath),
        }
    }

    /// The map as text: one line for each row, with `*` on the coordinates
    /// of the route once one was found.
    pub fn render(&self) -> (text: String)
        ensures
            text@ == self@.render(),
    {
        let set_opt: Option<PointSet> = match &self.path {
            Some(path) => Some(path.to_point_set()),
            None => None,
        };
        let bounds = self.grid.bounds();
        let mut text = String::new();
        let mut x: usize = 0;
        while x < bounds.x
            invariant
                x <= bounds.x,
                bounds == self@.maze.bounds,
                text@ == self@.render_rows(x as nat),
                match set_opt {
                    Some(set) => self@.route is Some && set@ == self@.route->0.to_set(),
                    None => self@.route is None,
                },
            decreases bounds.x - x,
        {
            let ghost above = text@;
            let mut y: usize = 0;
            while y < bounds.y
                invariant
                    y <= bounds.y,
                    x < bounds.x,
                    bounds == self@.maze.bounds,
                    text@ == above + self@.render_row(x, y as nat),
                    match set_opt {
                        Some(set) => self@.route is Some && set@ == self@.route->0.to_set(),
                        None => self@.route is None,
                    },
                decreases bounds.y - y,
            {
                let p = Point::new(x, y);
                let ghost row = self@.render_row(x, y as nat);
                match self.grid.get_point(p) {
                    None => {},
                    Some(cell) => {
                        let on_route = match &set_opt {
                            Some(set) => set.contains(&p),
                            None => false,
                        };
                        assert(on_route == self@.on_route(p));
                        if on_route {
                            text.append(glyph_text(CellType::Path));
                        } else {
                            text.append(glyph_text(*cell));
                        }
                        assert(text@ =~= above + row.push(self@.shown(p)));
                    },
                }
                y = y + 1;
            }
            text.append("\n");
            proof {
                reveal_strlit("\n");
                assert("\n"@ =~= seq!['\n']);
                assert(text@ =~= above + self@.render_row(x, bounds.y as nat) + seq!['\n']);
            }
            x = x + 1;
        }
        text
    }
}

} // verus!
