//! The search engine as a state machine: what one expansion does to the cost
//! cache and the frontier, and where a run of expansions ends.
//!
//! The frontier is a stack: the coordinate discovered last is expanded first.
//! Every node carries an estimate of the distance left, but the estimate takes
//! no part in the order of expansion. An open node that is reached again is
//! relaxed when its recorded distance is *less* than the new one, and then
//! takes the longer distance and the new parent. So a route that is found
//! leads from the target to the origin, and need not be a shortest one.

use crate::cost_cache::chain;
use crate::cost_cache::Node;
use crate::maze::Maze;
use crate::point::neighbors;
use crate::point::Point;
use vstd::prelude::*;

verus! {

/// Where a search stands.
#[derive(Debug, Clone, Copy, PartialEq, Eq, Structural)]
pub enum SearchPhase {
    /// The frontier holds a coordinate to expand.
    Running,
    /// The target was reached and settled.
    Found,
    /// The frontier ran empty before the target was reached.
    Exhausted,
}

/// The state of a search, as a mathematical object.
pub struct SearchState {
    /// The cost cache: the node of every coordinate discovered so far.
    pub cache: Map<Point, Node>,
    /// The coordinates that wait for expansion; the last one is expanded next.
    pub frontier: Seq<Point>,
    pub phase: SearchPhase,
    /// The number of expansions made so far.
    pub expansions: nat,
}

/// The state in which a search of `maze` starts: the origin is known, open,
/// its own parent and alone on the frontier.
pub open spec fn initial(maze: Maze) -> SearchState {
    SearchState {
        cache: Map::<Point, Node>::empty().insert(
            maze.origin,
            Node {
                point: maze.origin,
                to_origin: 0,
                parent: maze.origin,
                heuristic: maze.heuristic(maze.origin),
                opened: true,
            },
        ),
        frontier: seq![maze.origin],
        phase: SearchPhase::Running,
        expansions: 0,
    }
}

/// What the expansion of `from` does with its neighbour `next`, which lies
/// `dist` steps from the origin by way of `from`.
///
/// A neighbour that cannot be stepped onto is passed over. The target is
/// settled at once and ends the search. A neighbour met for the first time
/// gets an open node and joins the frontier. A neighbour that has an open node
/// with a distance below `dist` takes `dist` and `from` as its parent; a
/// settled node stays as it is.
pub open spec fn visit(maze: Maze, st: SearchState, from: Point, dist: nat, next: Point)
    -> SearchState {
    if st.phase != SearchPhase::Running || !maze.passable(next) {
        st
    } else if maze.is_goal(next) {
        SearchState {
            cache: st.cache.insert(
                next,
                Node { point: next, to_origin: dist, parent: from, heuristic: 0, opened: false },
            ),
            phase: SearchPhase::Found,
            ..st
        }
    } else if !st.cache.contains_key(next) {
        SearchState {
            cache: st.cache.insert(
                next,
                Node {
                    point: next,
                    to_origin: dist,
                    parent: from,
                    heuristic: maze.heuristic(next),
                    opened: true,
                },
            ),
            frontier: st.frontier.push(next),
            ..st
        }
    } else if st.cache[next].opened && st.cache[next].to_origin < dist {
        SearchState {
            cache: st.cache.insert(next, Node { to_origin: dist, parent: from, ..st.cache[next] }),
            ..st
        }
    } else {
        st
    }
}

/// The visits of `around`, one after the other.
pub open spec fn visit_all(
    maze: Maze,
    st: SearchState,
    from: Point,
    dist: nat,
    around: Seq<Point>,
) -> SearchState
    decreases around.len(),
{
    if around.len() == 0 {
        st
    } else {
        visit(maze, visit_all(maze, st, from, dist, around.drop_last()), from, dist, around.last())
    }
}

/// The state after the last coordinate of the frontier was taken off and settled.
pub open spec fn settle(st: SearchState) -> SearchState
    recommends
        st.frontier.len() > 0,
        st.cache.contains_key(st.frontier.last()),
{
    let p = st.frontier.last();
    SearchState {
        cache: st.cache.insert(p, Node { opened: false, ..st.cache[p] }),
        frontier: st.frontier.drop_last(),
        expansions: st.expansions + 1,
        ..st
    }
}

/// One expansion: the last coordinate of the frontier is settled and its
/// neighbours are visited. A search that has not found the target and has
/// nothing left to expand is exhausted.
pub open spec fn step(maze: Maze, st: SearchState) -> SearchState
    recommends
        st.phase == SearchPhase::Running,
        st.frontier.len() > 0,
        st.cache.contains_key(st.frontier.last()),
{
    let p = st.frontier.last();
    let after = visit_all(maze, settle(st), p, st.cache[p].to_origin + 1, neighbors(p));
    if after.phase == SearchPhase::Running && after.frontier.len() == 0 {
        SearchState { phase: SearchPhase::Exhausted, ..after }
    } else {
        after
    }
}

/// The state after at most `fuel` expansions, fewer where the search ends before.
pub open spec fn run(maze: Maze, st: SearchState, fuel: nat) -> SearchState
    decreases fuel,
{
    if fuel == 0 || st.phase != SearchPhase::Running {
        st
    } else {
        run(maze, step(maze, st), (fuel - 1) as nat)
    }
}

/// The state in which the search of `maze` ends.
pub open spec fn outcome(maze: Maze) -> SearchState {
    run(maze, initial(maze), maze.cell_count())
}

/// The route that the search of `maze` finds, from the target back to the
/// origin, or `None` where it finds none.
pub open spec fn search_route(maze: Maze) -> Option<Seq<Point>> {
    if outcome(maze).phase == SearchPhase::Found {
        Some(chain(outcome(maze).cache, maze.target))
    } else {
        None
    }
}

} // verus!
