//! Coordinates as integer keys, for the hashed stores of the search.

use crate::point::Point;
use vstd::prelude::*;

verus! {

/// The key of a coordinate: the row in the high half, the column in the low half.
pub open spec fn key_of(p: Point) -> u128 {
    (p.x * 0x1_0000_0000_0000_0000 + p.y) as u128
}

/// Different coordinates have different keys.
pub proof fn lemma_key_injective(p: Point, q: Point)
    ensures
        key_of(p) == key_of(q) <==> p == q,
{
}

/// Whether `k` is the key of a coordinate.
pub open spec fn is_key(k: u128) -> bool {
    exists|p: Point| #[trigger] key_of(p) == k
}

/// The coordinate that has the key `k`.
pub open spec fn unkey(k: u128) -> Point {
    choose|p: Point| #[trigger] key_of(p) == k
}

/// A key leads back to the coordinate it is the key of.
pub proof fn lemma_unkey(k: u128)
    requires
        is_key(k),
    ensures
        key_of(unkey(k)) == k,
{
}

pub fn point_key(p: Point) -> (key: u128)
    ensures
        key == key_of(p),
{
    let row = p.x as u128;
    let column = p.y as u128;
    row * 0x1_0000_0000_0000_0000u128 + column
}

} // verus!
