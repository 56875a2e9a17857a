//! What holds of every state that a search passes through, and why.

use crate::maze::Maze;
use crate::point::adjacent;
use crate::point::lemma_neighbors_adjacent;
use crate::point::neighbors;
use crate::point::Point;
use crate::search::initial;
use crate::search::run;
use crate::search::settle;
use crate::search::step;
use crate::search::visit;
use crate::search::visit_all;
use crate::search::SearchPhase;
use crate::search::SearchState;
use vstd::prelude::*;

verus! {

/// What holds of the node of `p`: it names its own coordinate, which holds a
/// cell; it lies no further from the origin than expansions were made; the
/// target has a node only once it is found, and that node is settled with
/// nothing left to go; the origin is its own parent at distance zero; every
/// other node was reached by one step from its parent, which is settled and
/// lies one step nearer to the origin.
pub open spec fn node_sound(maze: Maze, st: SearchState, p: Point) -> bool {
    let node = st.cache[p];
    &&& node.point == p
    &&& maze.has_cell(p)
    &&& node.to_origin <= st.expansions
    &&& maze.is_goal(p) ==> st.phase == SearchPhase::Found && !node.opened && node.heuristic == 0
    &&& if p == maze.origin {
        node.parent == p && node.to_origin == 0
    } else {
        &&& st.cache.contains_key(node.parent)
        &&& !st.cache[node.parent].opened
        &&& node.to_origin == st.cache[node.parent].to_origin + 1
        &&& maze.steps_to(node.parent, p)
    }
}

/// The cache holds finitely many nodes, among them the origin's, and each is sound.
pub open spec fn nodes_sound(maze: Maze, st: SearchState) -> bool {
    &&& st.cache.dom().finite()
    &&& st.cache.contains_key(maze.origin)
    &&& forall|p: Point| st.cache.contains_key(p) ==> #[trigger] node_sound(maze, st, p)
}

/// The frontier holds the open nodes, each once, and every node of the cache
/// is either on it or was counted when it was expanded or settled.
pub open spec fn frontier_sound(st: SearchState) -> bool {
    &&& st.frontier.no_duplicates()
    &&& forall|i: int|
        0 <= i < st.frontier.len() ==> st.cache.contains_key(#[trigger] st.frontier[i])
            && st.cache[st.frontier[i]].opened
    &&& forall|p: Point| #[trigger]
        st.cache.contains_key(p) && st.cache[p].opened ==> st.frontier.contains(p)
    &&& st.expansions + st.frontier.len() <= st.cache.dom().len()
}

/// Every coordinate that a search may step to from `p` has a node.
pub open spec fn expanded(maze: Maze, st: SearchState, p: Point) -> bool {
    forall|n: Point| #[trigger] maze.steps_to(p, n) ==> st.cache.contains_key(n)
}

/// What holds between two expansions.
pub open spec fn search_inv(maze: Maze, st: SearchState) -> bool {
    &&& nodes_sound(maze, st)
    &&& frontier_sound(st)
    &&& st.phase == SearchPhase::Running ==> st.frontier.len() > 0
    &&& st.phase == SearchPhase::Exhausted ==> st.frontier.len() == 0
    &&& st.phase == SearchPhase::Found ==> st.cache.contains_key(maze.target)
    &&& st.phase != SearchPhase::Found ==> forall|p: Point|
        st.cache.contains_key(p) && !st.cache[p].opened ==> #[trigger] expanded(maze, st, p)
}

/// What holds during the expansion of `from`, after its neighbours `done` were visited.
pub open spec fn expanding(maze: Maze, st: SearchState, from: Point, dist: nat, done: Seq<Point>)
    -> bool {
    &&& nodes_sound(maze, st)
    &&& frontier_sound(st)
    &&& st.cache.contains_key(from)
    &&& !st.cache[from].opened
    &&& dist == st.cache[from].to_origin + 1
    &&& dist <= st.expansions
    &&& st.phase != SearchPhase::Exhausted
    &&& st.phase == SearchPhase::Found ==> st.cache.contains_key(maze.target)
    &&& st.phase == SearchPhase::Running ==> {
        &&& forall|p: Point|
            st.cache.contains_key(p) && !st.cache[p].opened && p != from ==> #[trigger] expanded(
                maze,
                st,
                p,
            )
        &&& forall|i: int|
            0 <= i < done.len() && maze.passable(#[trigger] done[i]) ==> st.cache.contains_key(
                done[i],
            )
    }
}

/// A search starts in a state of which the invariant holds.
pub proof fn lemma_initial_sound(maze: Maze)
    requires
        maze.wf(),
    ensures
        search_inv(maze, initial(maze)),
{
    let st = initial(maze);
    assert(st.cache.dom() =~= Set::<Point>::empty().insert(maze.origin));
    assert(st.frontier[0] == maze.origin);
    assert forall|p: Point| st.cache.contains_key(p) implies node_sound(maze, st, p) by {
        assert(p == maze.origin);
    }
    assert forall|p: Point| #[trigger]
        st.cache.contains_key(p) && st.cache[p].opened implies st.frontier.contains(p) by {
        assert(st.frontier[0] == p);
    }
}

/// A visit keeps what holds during an expansion.
pub proof fn lemma_visit_sound(
    maze: Maze,
    st: SearchState,
    from: Point,
    dist: nat,
    done: Seq<Point>,
    next: Point,
)
    requires
        maze.wf(),
        expanding(maze, st, from, dist, done),
        adjacent(from, next),
    ensures
        expanding(maze, visit(maze, st, from, dist, next), from, dist, done.push(next)),
{
    let after = visit(maze, st, from, dist, next);
    let all = done.push(next);
    assert forall|i: int| 0 <= i < done.len() implies all[i] == done[i] by {}
    if st.phase != SearchPhase::Running {
    } else if !maze.passable(next) {
    } else {
        assert(maze.has_cell(next));
        assert(next != maze.origin);
        if st.cache.contains_key(next) {
            assert(node_sound(maze, st, next));
        }
        assert(node_sound(maze, st, from));
        if maze.is_goal(next) {
            assert(next == maze.target);
            assert(after.cache.dom() =~= st.cache.dom().insert(next));
            assert forall|p: Point| after.cache.contains_key(p) implies #[trigger] node_sound(
                maze,
                after,
                p,
            ) by {
                if p != next {
                    assert(node_sound(maze, st, p));
                }
            }
            assert forall|p: Point| #[trigger]
                after.cache.contains_key(p) && after.cache[p].opened implies after.frontier.contains(
                p,
            ) by {
                assert(st.cache.contains_key(p) && st.cache[p].opened);
            }
        } else if !st.cache.contains_key(next) {
            assert(after.cache.dom() =~= st.cache.dom().insert(next));
            assert forall|p: Point| after.cache.contains_key(p) implies #[trigger] node_sound(
                maze,
                after,
                p,
            ) by {
                if p != next {
                    assert(node_sound(maze, st, p));
                }
            }
            assert(after.frontier.no_duplicates()) by {
                assert forall|i: int, j: int|
                    0 <= i < after.frontier.len() && 0 <= j < after.frontier.len() && i
                        != j implies after.frontier[i] != after.frontier[j] by {
                    if i < st.frontier.len() {
                        assert(st.cache.contains_key(st.frontier[i]));
                    }
                    if j < st.frontier.len() {
                        assert(st.cache.contains_key(st.frontier[j]));
                    }
                }
            }
            assert forall|i: int| 0 <= i < after.frontier.len() implies after.cache.contains_key(
                #[trigger] after.frontier[i],
            ) && after.cache[after.frontier[i]].opened by {
                if i < st.frontier.len() {
                    assert(st.cache.contains_key(st.frontier[i]));
                }
            }
            assert forall|p: Point| #[trigger]
                after.cache.contains_key(p) && after.cache[p].opened implies after.frontier.contains(
                p,
            ) by {
                if p == next {
                    assert(after.frontier[st.frontier.len() as int] == p);
                } else {
                    assert(st.frontier.contains(p));
                    let i = choose|i: int| 0 <= i < st.frontier.len() && st.frontier[i] == p;
                    assert(after.frontier[i] == p);
                }
            }
            assert forall|p: Point|
                after.cache.contains_key(p) && !after.cache[p].opened && p
                    != from implies #[trigger] expanded(maze, after, p) by {
                assert(expanded(maze, st, p));
            }
        } else if st.cache[next].opened && st.cache[next].to_origin < dist {
            assert(after.cache.dom() =~= st.cache.dom());
            assert forall|p: Point| after.cache.contains_key(p) implies #[trigger] node_sound(
                maze,
                after,
                p,
            ) by {
                assert(node_sound(maze, st, p));
            }
            assert forall|p: Point|
                after.cache.contains_key(p) && !after.cache[p].opened && p
                    != from implies #[trigger] expanded(maze, after, p) by {
                assert(expanded(maze, st, p));
            }
        } else {
        }
    }
}

/// The visits of all neighbours keep what holds during an expansion, and
/// leave every neighbour that can be stepped onto with a node.
pub proof fn lemma_visit_all_sound(
    maze: Maze,
    st: SearchState,
    from: Point,
    dist: nat,
    around: Seq<Point>,
)
    requires
        maze.wf(),
        expanding(maze, st, from, dist, Seq::<Point>::empty()),
        forall|i: int| 0 <= i < around.len() ==> adjacent(from, #[trigger] around[i]),
    ensures
        expanding(maze, visit_all(maze, st, from, dist, around), from, dist, around),
    decreases around.len(),
{
    if around.len() > 0 {
        let before = around.drop_last();
        lemma_visit_all_sound(maze, st, from, dist, before);
        let mid = visit_all(maze, st, from, dist, before);
        lemma_visit_sound(maze, mid, from, dist, before, around.last());
        assert(before.push(around.last()) =~= around);
    } else {
        assert(around =~= Seq::<Point>::empty());
    }
}

/// Taking the last coordinate off the frontier and settling it leaves a
/// state in which its expansion can begin.
pub proof fn lemma_settle_sound(maze: Maze, st: SearchState)
    requires
        maze.wf(),
        search_inv(maze, st),
        st.phase == SearchPhase::Running,
    ensures
        expanding(
            maze,
            settle(st),
            st.frontier.last(),
            st.cache[st.frontier.last()].to_origin + 1,
            Seq::<Point>::empty(),
        ),
        maze.has_cell(st.frontier.last()),
        st.cache.contains_key(st.frontier.last()),
        st.cache[st.frontier.last()].opened,
{
    let p = st.frontier.last();
    let last = st.frontier.len() - 1;
    assert(st.frontier[last] == p);
    assert(node_sound(maze, st, p));
    let settled = settle(st);
    assert(settled.cache.dom() =~= st.cache.dom());
    assert forall|q: Point| settled.cache.contains_key(q) implies #[trigger] node_sound(
        maze,
        settled,
        q,
    ) by {
        assert(node_sound(maze, st, q));
    }
    assert forall|i: int| 0 <= i < settled.frontier.len() implies settled.cache.contains_key(
        #[trigger] settled.frontier[i],
    ) && settled.cache[settled.frontier[i]].opened by {
        assert(st.frontier[i] != st.frontier[last]);
        assert(st.cache.contains_key(st.frontier[i]));
    }
    assert forall|q: Point| #[trigger]
        settled.cache.contains_key(q) && settled.cache[q].opened implies settled.frontier.contains(
        q,
    ) by {
        assert(st.cache.contains_key(q) && st.cache[q].opened);
        assert(st.frontier.contains(q));
        let i = choose|i: int| 0 <= i < st.frontier.len() && st.frontier[i] == q;
        assert(settled.frontier[i] == q);
    }
    assert forall|q: Point|
        settled.cache.contains_key(q) && !settled.cache[q].opened && q
            != p implies #[trigger] expanded(maze, settled, q) by {
        assert(expanded(maze, st, q));
    }
}

/// An expansion keeps the invariant, and is counted.
pub proof fn lemma_step_sound(maze: Maze, st: SearchState)
    requires
        maze.wf(),
        search_inv(maze, st),
        st.phase == SearchPhase::Running,
    ensures
        search_inv(maze, step(maze, st)),
        step(maze, st).expansions == st.expansions + 1,
{
    let p = st.frontier.last();
    let dist = st.cache[p].to_origin + 1;
    let settled = settle(st);
    lemma_settle_sound(maze, st);
    lemma_neighbors_adjacent(p);
    lemma_visit_all_sound(maze, settled, p, dist, neighbors(p));
    let after = visit_all(maze, settled, p, dist, neighbors(p));
    lemma_visit_all_counts(maze, settled, p, dist, neighbors(p));
    let end = step(maze, st);
    assert forall|q: Point| end.cache.contains_key(q) implies #[trigger] node_sound(maze, end, q) by {
        assert(node_sound(maze, after, q));
    }
    if end.phase != SearchPhase::Found {
        assert forall|q: Point|
            end.cache.contains_key(q) && !end.cache[q].opened implies #[trigger] expanded(
            maze,
            end,
            q,
        ) by {
            if q == p {
                assert forall|n: Point| #[trigger] maze.steps_to(q, n) implies end.cache.contains_key(
                    n,
                ) by {
                    assert(neighbors(p).contains(n));
                    let i = choose|i: int| 0 <= i < neighbors(p).len() && neighbors(p)[i] == n;
                    assert(maze.passable(neighbors(p)[i]));
                }
            } else {
                assert(expanded(maze, after, q));
            }
        }
    }
}

/// A visit leaves a settled node as it is.
pub proof fn lemma_visit_keeps_settled(
    maze: Maze,
    st: SearchState,
    from: Point,
    dist: nat,
    done: Seq<Point>,
    next: Point,
    p: Point,
)
    requires
        expanding(maze, st, from, dist, done),
        st.cache.contains_key(p),
        !st.cache[p].opened,
    ensures
        visit(maze, st, from, dist, next).cache.contains_key(p),
        visit(maze, st, from, dist, next).cache[p] == st.cache[p],
{
    if st.cache.contains_key(next) {
        assert(node_sound(maze, st, next));
    }
}

/// The visits of all neighbours leave a settled node as it is.
pub proof fn lemma_visit_all_keeps_settled(
    maze: Maze,
    st: SearchState,
    from: Point,
    dist: nat,
    around: Seq<Point>,
    p: Point,
)
    requires
        maze.wf(),
        expanding(maze, st, from, dist, Seq::<Point>::empty()),
        forall|i: int| 0 <= i < around.len() ==> adjacent(from, #[trigger] around[i]),
        st.cache.contains_key(p),
        !st.cache[p].opened,
    ensures
        visit_all(maze, st, from, dist, around).cache.contains_key(p),
        visit_all(maze, st, from, dist, around).cache[p] == st.cache[p],
    decreases around.len(),
{
    if around.len() > 0 {
        let before = around.drop_last();
        lemma_visit_all_keeps_settled(maze, st, from, dist, before, p);
        lemma_visit_all_sound(maze, st, from, dist, before);
        let mid = visit_all(maze, st, from, dist, before);
        lemma_visit_keeps_settled(maze, mid, from, dist, before, around.last(), p);
    }
}

/// An expansion leaves every node that was settled before it as it is.
pub proof fn lemma_step_keeps_settled(maze: Maze, st: SearchState, p: Point)
    requires
        maze.wf(),
        search_inv(maze, st),
        st.phase == SearchPhase::Running,
        st.cache.contains_key(p),
        !st.cache[p].opened,
    ensures
        step(maze, st).cache.contains_key(p),
        step(maze, st).cache[p] == st.cache[p],
{
    let from = st.frontier.last();
    lemma_settle_sound(maze, st);
    lemma_neighbors_adjacent(from);
    lemma_visit_all_keeps_settled(
        maze,
        settle(st),
        from,
        st.cache[from].to_origin + 1,
        neighbors(from),
        p,
    );
}

/// A node that is settled stays as it is to the end of the search: its
/// distance from the origin and its parent are final.
pub proof fn lemma_run_keeps_settled(maze: Maze, st: SearchState, fuel: nat, p: Point)
    requires
        maze.wf(),
        search_inv(maze, st),
        st.cache.contains_key(p),
        !st.cache[p].opened,
    ensures
        run(maze, st, fuel).cache.contains_key(p),
        run(maze, st, fuel).cache[p] == st.cache[p],
    decreases fuel,
{
    if fuel > 0 && st.phase == SearchPhase::Running {
        lemma_step_sound(maze, st);
        lemma_step_keeps_settled(maze, st, p);
        lemma_run_keeps_settled(maze, step(maze, st), (fuel - 1) as nat, p);
    }
}

/// The target has a node only in a search that has found it, and that node
/// is settled with nothing left to go.
pub proof fn lemma_target_node_settled(maze: Maze, st: SearchState)
    requires
        maze.wf(),
        nodes_sound(maze, st),
        st.cache.contains_key(maze.target),
    ensures
        st.phase == SearchPhase::Found,
        !st.cache[maze.target].opened,
        st.cache[maze.target].heuristic == 0,
{
    assert(node_sound(maze, st, maze.target));
}

/// Visits make no expansion.
pub proof fn lemma_visit_all_counts(
    maze: Maze,
    st: SearchState,
    from: Point,
    dist: nat,
    around: Seq<Point>,
)
    ensures
        visit_all(maze, st, from, dist, around).expansions == st.expansions,
    decreases around.len(),
{
    if around.len() > 0 {
        lemma_visit_all_counts(maze, st, from, dist, around.drop_last());
    }
}

/// A run keeps the invariant, and makes one expansion for each unit of fuel
/// for as long as it has not ended.
pub proof fn lemma_run_sound(maze: Maze, st: SearchState, fuel: nat)
    requires
        maze.wf(),
        search_inv(maze, st),
    ensures
        search_inv(maze, run(maze, st, fuel)),
        run(maze, st, fuel).expansions <= st.expansions + fuel,
        run(maze, st, fuel).phase == SearchPhase::Running ==> run(maze, st, fuel).expansions
            == st.expansions + fuel,
    decreases fuel,
{
    if fuel > 0 && st.phase == SearchPhase::Running {
        lemma_step_sound(maze, st);
        lemma_run_sound(maze, step(maze, st), (fuel - 1) as nat);
    }
}

} // verus!
