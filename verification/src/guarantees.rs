//! What a search guarantees: it ends within as many expansions as the maze
//! has cells, it finds a route exactly where the origin and the target are
//! connected, and the route it finds leads from the target to the origin.

use crate::cost_cache::chain;
use crate::cost_cache::parents_descend;
use crate::invariants::expanded;
use crate::invariants::lemma_initial_sound;
use crate::invariants::lemma_run_sound;
use crate::invariants::node_sound;
use crate::invariants::nodes_sound;
use crate::invariants::search_inv;
use crate::maze::Maze;
use crate::point::Point;
use crate::search::initial;
use crate::search::outcome;
use crate::search::run;
use crate::search::search_route;
use crate::search::SearchPhase;
use crate::search::SearchState;
use vstd::prelude::*;

verus! {

/// In a sound cache every parent link leads nearer to the origin.
pub proof fn lemma_sound_parents_descend(maze: Maze, st: SearchState)
    requires
        nodes_sound(maze, st),
    ensures
        parents_descend(st.cache),
{
    assert forall|p: Point| #[trigger]
        st.cache.contains_key(p) && st.cache[p].parent != p implies st.cache.contains_key(
        st.cache[p].parent,
    ) && st.cache[st.cache[p].parent].to_origin < st.cache[p].to_origin by {
        assert(node_sound(maze, st, p));
    }
}

/// In a sound cache the parent links from a node lead to the origin by steps
/// that a search may take, one for each unit of the node's distance.
pub proof fn lemma_chain_walks_back(maze: Maze, st: SearchState, p: Point)
    requires
        nodes_sound(maze, st),
        st.cache.contains_key(p),
    ensures
        chain(st.cache, p).len() == st.cache[p].to_origin + 1,
        chain(st.cache, p)[0] == p,
        chain(st.cache, p).last() == maze.origin,
        forall|i: int|
            0 <= i < chain(st.cache, p).len() - 1 ==> maze.steps_to(
                chain(st.cache, p)[i + 1],
                #[trigger] chain(st.cache, p)[i],
            ),
    decreases st.cache[p].to_origin,
{
    assert(node_sound(maze, st, p));
    if p != maze.origin {
        let parent = st.cache[p].parent;
        lemma_chain_walks_back(maze, st, parent);
        let rest = chain(st.cache, parent);
        let whole = chain(st.cache, p);
        assert(whole == seq![p] + rest);
        assert forall|i: int| 0 <= i < whole.len() - 1 implies maze.steps_to(
            whole[i + 1],
            #[trigger] whole[i],
        ) by {
            if i > 0 {
                assert(whole[i] == rest[i - 1]);
                assert(whole[i + 1] == rest[i]);
            } else {
                assert(whole[1] == rest[0]);
            }
        }
    }
}

/// In an exhausted search every coordinate of a walk has a node.
proof fn lemma_walk_discovered(maze: Maze, st: SearchState, walk: Seq<Point>, i: int)
    requires
        search_inv(maze, st),
        st.phase == SearchPhase::Exhausted,
        maze.is_walk(walk),
        0 <= i < walk.len(),
    ensures
        st.cache.contains_key(walk[i]),
    decreases i,
{
    if i > 0 {
        lemma_walk_discovered(maze, st, walk, i - 1);
        let before = walk[i - 1];
        if st.cache[before].opened {
            assert(st.frontier.contains(before));
        }
        assert(expanded(maze, st, before));
        assert(maze.steps_to(before, walk[i]));
    }
}

/// A search that runs out of coordinates to expand has shown that no walk
/// leads from the origin to the target.
pub proof fn lemma_exhausted_means_cut_off(maze: Maze, st: SearchState)
    requires
        maze.wf(),
        search_inv(maze, st),
        st.phase == SearchPhase::Exhausted,
    ensures
        !maze.connected(),
{
    if maze.connected() {
        let walk = choose|walk: Seq<Point>| #[trigger]
            maze.is_walk(walk) && walk.last() == maze.target;
        let end = walk.len() - 1;
        lemma_walk_discovered(maze, st, walk, end);
        assert(node_sound(maze, st, maze.target));
        if end > 0 {
            assert(maze.steps_to(walk[end - 1], walk[end]));
        }
        assert(false);
    }
}

/// A search that has found the target holds a route to it.
pub proof fn lemma_found_means_route(maze: Maze, st: SearchState)
    requires
        maze.wf(),
        search_inv(maze, st),
        st.phase == SearchPhase::Found,
    ensures
        maze.is_route(chain(st.cache, maze.target)),
        maze.connected(),
{
    lemma_chain_walks_back(maze, st, maze.target);
    let route = chain(st.cache, maze.target);
    let walk = route.reverse();
    assert(walk.last() == route[0]);
    assert(walk[0] == route.last());
    assert forall|i: int| 0 < i < walk.len() implies maze.steps_to(walk[i - 1], #[trigger] walk[i]) by {
        let j = route.len() - 1 - i;
        assert(walk[i] == route[j]);
        assert(walk[i - 1] == route[j + 1]);
    }
    assert(maze.is_walk(walk));
}

/// However much fuel a search is given, it makes no more expansions than
/// the maze has cells.
pub proof fn lemma_expansions_bounded(maze: Maze, fuel: nat)
    requires
        maze.wf(),
    ensures
        run(maze, initial(maze), fuel).expansions <= maze.cell_count(),
        run(maze, initial(maze), fuel).phase == SearchPhase::Running ==> run(
            maze,
            initial(maze),
            fuel,
        ).expansions < maze.cell_count(),
{
    lemma_initial_sound(maze);
    lemma_run_sound(maze, initial(maze), fuel);
    lemma_discovered_bounded(maze, run(maze, initial(maze), fuel));
}

/// A sound cache holds no more nodes than the maze has cells.
pub proof fn lemma_discovered_bounded(maze: Maze, st: SearchState)
    requires
        maze.wf(),
        nodes_sound(maze, st),
    ensures
        st.cache.dom().len() <= maze.cell_count(),
{
    assert forall|p: Point| st.cache.dom().contains(p) implies maze.has_cell(p) by {
        assert(node_sound(maze, st, p));
    }
    maze.lemma_cells_bound(st.cache.dom());
}

/// The search of a maze ends, found or exhausted, within as many expansions
/// as the maze has cells, in a state of which the invariant holds.
pub proof fn lemma_search_ends(maze: Maze)
    requires
        maze.wf(),
    ensures
        outcome(maze).phase != SearchPhase::Running,
        outcome(maze).expansions <= maze.cell_count(),
        search_inv(maze, outcome(maze)),
{
    lemma_initial_sound(maze);
    lemma_run_sound(maze, initial(maze), maze.cell_count());
    lemma_expansions_bounded(maze, maze.cell_count());
}

/// The search of a maze finds a route exactly where walks connect the origin
/// and the target, and the route it finds leads from the target back to the
/// origin by steps that a search may take.
pub proof fn lemma_route_iff_connected(maze: Maze)
    requires
        maze.wf(),
    ensures
        search_route(maze) is Some <==> maze.connected(),
        search_route(maze) matches Some(route) ==> maze.is_route(route),
{
    lemma_search_ends(maze);
    if outcome(maze).phase == SearchPhase::Found {
        lemma_found_means_route(maze, outcome(maze));
    } else {
        lemma_exhausted_means_cut_off(maze, outcome(maze));
    }
}

} // verus!
