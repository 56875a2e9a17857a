use walker::CostCache;
use walker::CostMetric;
use walker::Point;

const X: Point = Point { x: 1, y: 0 };
const Y: Point = Point { x: 0, y: 1 };
const ZERO: Point = Point { x: 0, y: 0 };

#[test]
fn is_contained() {
    let ref_ = Point::new(4, 4);
    let a = Point::new(2, 2);
    assert!(a.is_contained_in(&ref_));

    let a = Point::new(4, 2);
    assert!(!a.is_contained_in(&ref_));

    let a = Point::new(2, 4);
    assert!(!a.is_contained_in(&ref_));
}

#[test]
fn contains() {
    let ref_ = Point::new(4, 4);
    let a = Point::new(2, 2);
    assert!(!a.contains(&ref_));
    assert!(ref_.contains(&a));

    let a = Point::new(4, 2);
    assert!(!a.contains(&ref_));
}

#[test]
fn add() {
    assert_eq!(X + Y, Point::new(1, 1))
}

#[test]
fn checked_sub() {
    assert_eq!(X.checked_sub(&Y), None);
    assert_eq!(X.checked_sub(&X), Some(Point::new(0, 0)));
}

#[test]
fn get_points_around() {
    let points = ZERO.get_points_around();
    assert_eq!(points.len(), 2);
    assert_eq!(points.iter().find(|v| v.eq(&&X)).is_some(), true);
    assert_eq!(points.iter().find(|v| v.eq(&&Y)).is_some(), true);
}

#[test]
fn squared_norm() {
    assert_eq!(ZERO.squared_norm(), 0);
    let p = Point::new(3, 3);
    assert_eq!(p.squared_norm(), 9 + 9);
}

#[test]
fn points_around_come_in_order() {
    let points = Point::new(5, 7).get_points_around();
    assert_eq!(
        points,
        vec![Point::new(6, 7), Point::new(5, 8), Point::new(4, 7), Point::new(5, 6)]
    );
    let points = Point::new(0, 3).get_points_around();
    assert_eq!(points, vec![Point::new(1, 3), Point::new(0, 4), Point::new(0, 2)]);
    let points = Point::new(3, 0).get_points_around();
    assert_eq!(points, vec![Point::new(4, 0), Point::new(3, 1), Point::new(2, 0)]);
}

#[test]
fn containment_is_strict_on_both_axes() {
    let bounds = Point::new(3, 5);
    assert!(bounds.contains(&Point::new(2, 4)));
    assert!(!bounds.contains(&Point::new(3, 4)));
    assert!(!bounds.contains(&Point::new(2, 5)));
    assert!(Point::new(0, 0).is_contained_in(&bounds));
    assert!(!bounds.is_contained_in(&bounds));
}

#[test]
fn checked_sub_subtracts_each_axis() {
    assert_eq!(Point::new(5, 7).checked_sub(&Point::new(2, 7)), Some(Point::new(3, 0)));
    assert_eq!(Point::new(5, 7).checked_sub(&Point::new(6, 0)), None);
    assert_eq!(Point::new(5, 7).checked_sub(&Point::new(0, 8)), None);
}

#[test]
fn squared_distance_is_symmetric_and_exact() {
    let a = Point::new(1, 2);
    let b = Point::new(4, 6);
    assert_eq!(a.squared_distance(b), 25);
    assert_eq!(b.squared_distance(a), 25);
    assert_eq!(a.squared_distance(a), 0);
    assert_eq!(Point::new(7, 0).squared_norm(), 49);
}

#[test]
fn point_from_pair_and_default() {
    assert_eq!(Point::from((3, 9)), Point::new(3, 9));
    assert_eq!(Point::default(), ZERO);
    let p: Point = (2, 1).into();
    assert_eq!(p, Point { x: 2, y: 1 });
}

#[test]
fn point_keys_tell_rows_from_columns() {
    assert_ne!(walker::key::point_key(Point::new(1, 0)), walker::key::point_key(Point::new(0, 1)));
    assert_eq!(walker::key::point_key(Point::new(0, 5)), 5);
    assert_eq!(walker::key::point_key(Point::new(2, 3)), (2u128 << 64) + 3);
}

fn node(point: Point, to_origin: usize, parent: Point, opened: bool) -> CostMetric {
    CostMetric { point, to_origin, parent, heuristic: 0, opened }
}

#[test]
fn cost_is_distance_plus_estimate() {
    let n = CostMetric {
        point: Point::new(1, 1),
        to_origin: 4,
        parent: Point::new(1, 0),
        heuristic: 13,
        opened: true,
    };
    assert_eq!(n.cost(), 17);
}

#[test]
fn cache_keeps_one_node_for_each_coordinate() {
    let mut cache = CostCache::new();
    assert_eq!(cache.len(), 0);
    assert_eq!(cache.get(&ZERO), None);
    cache.upsert(ZERO, node(ZERO, 0, ZERO, true));
    cache.upsert(X, node(X, 1, ZERO, true));
    assert_eq!(cache.len(), 2);
    assert_eq!(cache.get(&X), Some(&node(X, 1, ZERO, true)));
    cache.upsert(X, node(X, 5, Y, false));
    assert_eq!(cache.len(), 2);
    assert_eq!(cache.get(&X), Some(&node(X, 5, Y, false)));
    assert_eq!(cache.get(&ZERO), Some(&node(ZERO, 0, ZERO, true)));
    assert_eq!(cache.get(&Y), None);
}

#[test]
fn reverse_path_follows_parents_to_the_self_parent() {
    let a = Point::new(0, 0);
    let b = Point::new(0, 1);
    let c = Point::new(1, 1);
    let mut cache = CostCache::new();
    cache.upsert(a, node(a, 0, a, false));
    cache.upsert(b, node(b, 1, a, false));
    cache.upsert(c, node(c, 2, b, false));
    let path = cache.get_reverse_path(c).unwrap();
    assert_eq!(path.points(), &vec![c, b, a]);
    assert_eq!(path.len(), 3);
    let path = cache.get_reverse_path(a).unwrap();
    assert_eq!(path.points(), &vec![a]);
}

#[test]
fn reverse_path_of_an_unknown_coordinate_is_none() {
    let a = Point::new(0, 0);
    let mut cache = CostCache::new();
    assert!(cache.get_reverse_path(a).is_none());
    cache.upsert(a, node(a, 0, a, false));
    assert!(cache.get_reverse_path(Point::new(9, 9)).is_none());
}

#[test]
fn point_set_holds_the_points_of_a_path() {
    let path = walker::Path::new(vec![Point::new(1, 2), Point::new(1, 1), Point::new(2, 1)]);
    let set = path.to_point_set();
    assert!(set.contains(&Point::new(1, 2)));
    assert!(set.contains(&Point::new(1, 1)));
    assert!(set.contains(&Point::new(2, 1)));
    assert!(!set.contains(&Point::new(2, 2)));
    assert!(!set.contains(&Point::new(2, 0)));
    assert!(!walker::Path::new(vec![]).to_point_set().contains(&ZERO));
}
