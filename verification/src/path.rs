//! The route that a search hands back.

use crate::key::key_of;
use crate::key::lemma_key_injective;
use crate::key::point_key;
use crate::point::Point;
use std::collections::HashSet;
use vstd::prelude::*;

verus! {

broadcast use vstd::std_specs::hash::group_hash_axioms;

/// A route, from the target back to the origin.
#[derive(Debug)]
pub struct Path {
    inner: Vec<Point>,
}

/// The coordinates of a route, for membership tests.
pub struct PointSet {
    keys: HashSet<u128>,
}

impl View for Path {
    type V = Seq<Point>;

    closed spec fn view(&self) -> Seq<Point> {
        self.inner@
    }
}

impl View for PointSet {
    type V = Set<Point>;

    closed spec fn view(&self) -> Set<Point> {
        Set::new(|p: Point| self.keys@.contains(key_of(p)))
    }
}

impl PointSet {
    pub fn contains(&self, p: &Point) -> (found: bool)
        ensures
            found == self@.contains(*p),
    {
        let key = point_key(*p);
        self.keys.contains(&key)
    }
}

impl Path {
    pub fn new(vec: Vec<Point>) -> (path: Self)
        ensures
            path@ == vec@,
    {
        Self { inner: vec }
    }

    /// The number of coordinates on the route.
    pub fn len(&self) -> (n: usize)
        ensures
            n == self@.len(),
    {
        self.inner.len()
    }

    /// The coordinates of the route, the target first.
    pub fn points(&self) -> (points: &Vec<Point>)
        ensures
            points@ == self@,
    {
        &self.inner
    }

    /// The coordinates of the route as a set.
    pub fn to_point_set(&self) -> (set: PointSet)
        ensures
            set@ == self@.to_set(),
    {
        let mut keys: HashSet<u128> = HashSet::new();
        let mut i: usize = 0;
        while i < self.inner.len()
            invariant
                i <= self.inner.len(),
                forall|k: u128|
                    keys@.contains(k) <==> exists|j: int|
                        0 <= j < i && k == key_of(#[trigger] self.inner@[j]),
            decreases self.inner.len() - i,
        {
            let key = point_key(self.inner[i]);
            keys.insert(key);
            i += 1;
        }
        let set = PointSet { keys };
        assert(set@ =~= self@.to_set()) by {
            assert forall|p: Point| set@.contains(p) <==> self@.to_set().contains(p) by {
                if set@.contains(p) {
                    let j = choose|j: int|
                        0 <= j < i && key_of(p) == key_of(#[trigger] self.inner@[j]);
                    lemma_key_injective(p, self.inner@[j]);
                }
                if self@.to_set().contains(p) {
                    let j = choose|j: int| 0 <= j < self@.len() && self@[j] == p;
                    assert(key_of(p) == key_of(self.inner@[j]));
                }
            }
        }
        set
    }
}

} // verus!
