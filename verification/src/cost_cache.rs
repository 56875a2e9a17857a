//! The cost cache of a search: for every coordinate that the search has
//! discovered, the best node known for it.

use crate::key::is_key;
use crate::key::key_of;
use crate::key::lemma_key_injective;
use crate::key::lemma_unkey;
use crate::key::point_key;
use crate::key::unkey;
use crate::path::Path;
use crate::point::Point;
use std::collections::HashMap;
use vstd::prelude::*;

verus! {

broadcast use vstd::std_specs::hash::group_hash_axioms;

/// What a search knows of one coordinate.
#[derive(Debug, Clone, Copy, PartialEq, Eq, Structural)]
pub struct CostMetric {
    /// The coordinate itself.
    pub point: Point,
    /// The number of steps from the origin along the recorded parents.
    pub to_origin: usize,
    /// The coordinate from which this one was reached; the origin is its own parent.
    pub parent: Point,
    /// The estimate of what is left to the target.
    pub heuristic: usize,
    /// True while the node may still be relaxed, false once it is settled.
    pub opened: bool,
}

/// A node as a mathematical object, with unbounded numbers.
pub struct Node {
    pub point: Point,
    pub to_origin: nat,
    pub parent: Point,
    pub heuristic: nat,
    pub opened: bool,
}

impl View for CostMetric {
    type V = Node;

    open spec fn view(&self) -> Node {
        Node {
            point: self.point,
            to_origin: self.to_origin as nat,
            parent: self.parent,
            heuristic: self.heuristic as nat,
            opened: self.opened,
        }
    }
}

impl CostMetric {
    /// The estimated length of a route through this node.
    pub fn cost(&self) -> (total: usize)
        requires
            self.heuristic + self.to_origin <= usize::MAX,
        ensures
            total == self.heuristic + self.to_origin,
    {
        self.heuristic + self.to_origin
    }
}

/// Whether every parent link of `cache` leads to a node of the cache that
/// lies nearer to the origin. The one link that leads nowhere is that of a
/// node which is its own parent.
pub open spec fn parents_descend(cache: Map<Point, Node>) -> bool {
    forall|p: Point| #[trigger]
        cache.contains_key(p) && cache[p].parent != p ==> cache.contains_key(cache[p].parent)
            && cache[cache[p].parent].to_origin < cache[p].to_origin
}

/// The coordinates met by following the parent links of `cache` from `p`,
/// `p` first, up to and including the first node that is its own parent. A
/// link that does not lead to a node nearer to the origin is not followed.
pub open spec fn chain(cache: Map<Point, Node>, p: Point) -> Seq<Point>
    decreases cache[p].to_origin,
{
    if cache.contains_key(p) && cache[p].parent != p && cache.contains_key(cache[p].parent)
        && cache[cache[p].parent].to_origin < cache[p].to_origin {
        seq![p] + chain(cache, cache[p].parent)
    } else {
        seq![p]
    }
}

/// A keyed store from coordinates to nodes, one node for each coordinate.
pub struct CostCache {
    nodes: HashMap<u128, CostMetric>,
}

impl View for CostCache {
    type V = Map<Point, Node>;

    closed spec fn view(&self) -> Map<Point, Node> {
        Map::new(
            |p: Point| self.nodes@.contains_key(key_of(p)),
            |p: Point| self.nodes@[key_of(p)]@,
        )
    }
}

impl CostCache {
    /// Whether every key of the store is the key of a coordinate. Every store
    /// that `new` makes and `upsert` fills is such a store.
    pub closed spec fn wf(&self) -> bool {
        forall|k: u128| #[trigger] self.nodes@.contains_key(k) ==> is_key(k)
    }

    /// A store holds finitely many nodes, no more than the machine can count.
    pub proof fn lemma_len_fits(&self)
        requires
            self.wf(),
        ensures
            self@.dom().finite(),
            self@.len() <= usize::MAX,
    {
        self.lemma_len_counts();
        assert(vstd::std_specs::hash::spec_hash_map_len(&self.nodes) == self.nodes@.len());
    }

    /// The store holds one node for each of its keys.
    proof fn lemma_len_counts(&self)
        requires
            self.wf(),
        ensures
            self@.dom().finite(),
            self@.len() == self.nodes@.len(),
    {
        let keys = self.nodes@.dom();
        let back = |k: u128| unkey(k);
        assert forall|j: u128, k: u128| #[trigger]
            keys.contains(j) && #[trigger] keys.contains(k) && back(j) == back(k) implies j == k by {
            lemma_unkey(j);
            lemma_unkey(k);
        }
        assert(keys.map(back) =~= self@.dom()) by {
            assert forall|p: Point| keys.map(back).contains(p) <==> self@.dom().contains(p) by {
                if keys.map(back).contains(p) {
                    let k = choose|k: u128| keys.contains(k) && back(k) == p;
                    lemma_unkey(k);
                }
                if self@.dom().contains(p) {
                    lemma_unkey(key_of(p));
                    lemma_key_injective(p, unkey(key_of(p)));
                    assert(keys.contains(key_of(p)) && back(key_of(p)) == p);
                }
            }
        }
        vstd::set_lib::lemma_map_size(keys, self@.dom(), back);
    }

    pub fn new() -> (cache: Self)
        ensures
            cache.wf(),
            cache@ == Map::<Point, Node>::empty(),
    {
        let cache = CostCache { nodes: HashMap::new() };
        assert(cache@ =~= Map::<Point, Node>::empty());
        cache
    }

    /// The number of nodes in the store.
    pub fn len(&self) -> (n: usize)
        requires
            self.wf(),
        ensures
            n == self@.len(),
    {
        proof {
            self.lemma_len_counts();
        }
        self.nodes.len()
    }

    /// The node recorded for `p`, if there is one.
    pub fn get(&self, p: &Point) -> (node: Option<&CostMetric>)
        ensures
            match node {
                Some(found) => self@.contains_key(*p) && found@ == self@[*p],
                None => !self@.contains_key(*p),
            },
    {
        let key = point_key(*p);
        self.nodes.get(&key)
    }

    /// Records `node` for `p`, in place of what was recorded for it before.
    pub fn upsert(&mut self, p: Point, node: CostMetric)
        requires
            old(self).wf(),
        ensures
            final(self).wf(),
            final(self)@ == old(self)@.insert(p, node@),
    {
        let key = point_key(p);
        self.nodes.insert(key, node);
        proof {
            assert forall|q: Point| q != p implies key_of(q) != key by {
                lemma_key_injective(p, q);
            }
            assert(self@ =~= old(self)@.insert(p, node@));
        }
    }

    /// The route from `end` back along the parent links, `end` first, if `end` has a node.
    pub fn get_reverse_path(&self, end: Point) -> (route: Option<Path>)
        requires
            parents_descend(self@),
        ensures
            match route {
                Some(path) => self@.contains_key(end) && path@ == chain(self@, end),
                None => !self@.contains_key(end),
            },
    {
        let mut points: Vec<Point> = Vec::new();
        points.push(end);
        let mut p = end;
        loop
            invariant_except_break
                parents_descend(self@),
                points@.len() > 0,
                points@.last() == p,
                points@.drop_last() + chain(self@, p) == chain(self@, end),
                p != end ==> self@.contains_key(p),
            ensures
                self@.contains_key(end),
                points@ == chain(self@, end),
            decreases
                    (if self@.contains_key(p) {
                        self@[p].to_origin + 1
                    } else {
                        0
                    }),
        {
            match self.get(&p) {
                None => {
                    return None;
                },
                Some(cost) => {
                    if cost.parent == p {
                        assert(points@.drop_last() + seq![p] =~= points@);
                        break ;
                    }
                    let ghost before = points@;
                    p = cost.parent;
                    points.push(p);
                    assert(points@.drop_last() =~= before);
                    assert(before =~= before.drop_last() + seq![before.last()]);
                    assert(points@.drop_last() + chain(self@, p) =~= before.drop_last() + (
                    seq![before.last()] + chain(self@, p)));
                },
            }
        }
        Some(Path::new(points))
    }
}

} // verus!
