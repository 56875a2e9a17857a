//! The search engine: the cost cache and the frontier of one search, and the
//! expansions that drive it to its end.

use crate::cost_cache::CostCache;
use crate::cost_cache::CostMetric;
use crate::grid::Grid;
use crate::guarantees::lemma_discovered_bounded;
use crate::invariants::lemma_initial_sound;
use crate::invariants::lemma_step_sound;
use crate::invariants::node_sound;
use crate::invariants::search_inv;
use crate::maze::Maze;
use crate::point::neighbors;
use crate::point::Point;
use crate::search::initial;
use crate::search::run;
use crate::search::settle;
use crate::search::step;
use crate::search::visit;
use crate::search::visit_all;
use crate::search::SearchPhase;
use crate::search::SearchState;
use vstd::prelude::*;

verus! {

/// One search of a grid, made for it and used up by it.
pub struct Search {
    cache: CostCache,
    frontier: Vec<Point>,
    phase: SearchPhase,
    expansions: usize,
}

impl View for Search {
    type V = SearchState;

    closed spec fn view(&self) -> SearchState {
        SearchState {
            cache: self.cache@,
            frontier: self.frontier@,
            phase: self.phase,
            expansions: self.expansions as nat,
        }
    }
}

impl Search {
    /// Whether the search is in a state that a search of `maze` passes through.
    pub closed spec fn wf(&self, maze: Maze) -> bool {
        &&& search_inv(maze, self@)
        &&& self.cache.wf()
    }

    /// A search in a state that a search of `maze` passes through satisfies the invariant.
    pub proof fn lemma_wf_sound(&self, maze: Maze)
        requires
            self.wf(maze),
        ensures
            search_inv(maze, self@),
    {
    }

    /// A search of `grid`, before its first expansion.
    pub fn new(grid: &Grid) -> (search: Search)
        requires
            grid.wf(),
            grid@.heuristics_fit(),
        ensures
            search@ == initial(grid@),
            search.wf(grid@),
    {
        let origin = grid.origin();
        let origin_cost = CostMetric {
            parent: origin,
            to_origin: 0,
            heuristic: grid.distance_to_target(origin),
            opened: true,
            point: origin,
        };
        let mut cache = CostCache::new();
        cache.upsert(origin, origin_cost);
        let mut frontier: Vec<Point> = Vec::new();
        frontier.push(origin);
        proof {
            lemma_initial_sound(grid@);
            assert(frontier@ =~= seq![origin]);
        }
        Search { cache, frontier, phase: SearchPhase::Running, expansions: 0 }
    }

    pub fn phase(&self) -> (phase: SearchPhase)
        ensures
            phase == self@.phase,
    {
        self.phase
    }

    /// The number of expansions made so far.
    pub fn expansions(&self) -> (n: usize)
        ensures
            n == self@.expansions,
    {
        self.expansions
    }

    pub fn cache(&self) -> (cache: &CostCache)
        ensures
            cache@ == self@.cache,
    {
        &self.cache
    }

    /// The coordinates that wait for expansion; the last one is expanded next.
    pub fn frontier(&self) -> (frontier: &Vec<Point>)
        ensures
            frontier@ == self@.frontier,
    {
        &self.frontier
    }

    /// Visits `next`, a neighbour of the coordinate `from` that is being
    /// expanded, `dist` steps from the origin by way of `from`.
    fn visit(&mut self, grid: &Grid, from: Point, dist: usize, next: Point)
        requires
            grid@.heuristics_fit(),
            old(self).cache.wf(),
        ensures
            final(self)@ == visit(grid@, old(self)@, from, dist as nat, next),
            final(self).cache.wf(),
    {
        if self.phase != SearchPhase::Running {
            return ;
        }
        let cell = match grid.get_point(next) {
            None => {
                return ;
            },
            Some(cell) => *cell,
        };
        if !cell.can_traverse() {
            return ;
        }
        if cell.is_target() {
            let computed = CostMetric {
                opened: false,
                parent: from,
                to_origin: dist,
                heuristic: 0,
                point: next,
            };
            self.cache.upsert(next, computed);
            self.phase = SearchPhase::Found;
            return ;
        }
        let cached = match self.cache.get(&next) {
            None => None,
            Some(cost) => Some(*cost),
        };
        match cached {
            None => {
                let computed = CostMetric {
                    opened: true,
                    parent: from,
                    to_origin: dist,
                    heuristic: grid.distance_to_target(next),
                    point: next,
                };
                self.cache.upsert(next, computed);
                self.frontier.push(next);
            },
            Some(cost) => {
                if cost.opened && cost.to_origin < dist {
                    let relaxed = CostMetric { to_origin: dist, parent: from, ..cost };
                    self.cache.upsert(next, relaxed);
                }
            },
        }
    }

    /// One expansion: takes the coordinate discovered last off the frontier,
    /// settles it and visits its neighbours.
    pub fn step(&mut self, grid: &Grid)
        requires
            grid.wf(),
            grid@.heuristics_fit(),
            old(self).wf(grid@),
            old(self)@.phase == SearchPhase::Running,
        ensures
            final(self)@ == step(grid@, old(self)@),
            final(self).wf(grid@),
    {
        let ghost start = self@;
        proof {
            lemma_step_sound(grid@, start);
            self.cache.lemma_len_fits();
            assert(start.frontier[start.frontier.len() - 1] == start.frontier.last());
            assert(node_sound(grid@, start, start.frontier.last()));
        }
        let p = self.frontier.pop().unwrap();
        let cost = *self.cache.get(&p).unwrap();
        let next_dist = cost.to_origin + 1;
        self.cache.upsert(p, CostMetric { opened: false, ..cost });
        self.expansions = self.expansions + 1;
        let around = p.get_points_around();
        assert(self@ == settle(start));
        let mut i: usize = 0;
        while i < around.len()
            invariant
                i <= around.len(),
                around@ == neighbors(p),
                grid@.heuristics_fit(),
                self.cache.wf(),
                self@ == visit_all(grid@, settle(start), p, next_dist as nat, around@.take(i as int)),
            decreases around.len() - i,
        {
            let next = around[i];
            self.visit(grid, p, next_dist, next);
            proof {
                let done = around@.take(i as int + 1);
                assert(done.drop_last() =~= around@.take(i as int));
                assert(done.last() == next);
            }
            i = i + 1;
        }
        assert(around@.take(i as int) =~= around@);
        if self.phase == SearchPhase::Running && self.frontier.is_empty() {
            self.phase = SearchPhase::Exhausted;
        }
    }

    /// Expands until the target is found or the frontier is empty.
    pub fn run(&mut self, grid: &Grid)
        requires
            grid.wf(),
            grid@.heuristics_fit(),
            old(self).wf(grid@),
        ensures
            final(self).wf(grid@),
            final(self)@.phase != SearchPhase::Running,
            final(self)@ == run(grid@, old(self)@, grid@.cell_count()),
            final(self)@.expansions <= grid@.cell_count(),
    {
        let ghost start = self@;
        let ghost total = grid@.cell_count();
        proof {
            lemma_discovered_bounded(grid@, start);
        }
        while self.phase == SearchPhase::Running
            invariant
                grid.wf(),
                grid@.heuristics_fit(),
                self.wf(grid@),
                total == grid@.cell_count(),
                self@.expansions <= total,
                self@.phase == SearchPhase::Running ==> self@.expansions < total,
                start.expansions <= self@.expansions,
                run(grid@, self@, (total - (self@.expansions - start.expansions)) as nat) == run(
                    grid@,
                    start,
                    total,
                ),
            decreases total - self@.expansions,
        {
            let ghost before = self@;
            self.step(grid);
            proof {
                lemma_step_sound(grid@, before);
                lemma_discovered_bounded(grid@, self@);
            }
        }
    }
}

} // verus!
