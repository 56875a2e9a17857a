use walker::AppConfig;
use walker::CellType;
use walker::ConversionError;
use walker::GameMap;
use walker::GameMapError;
use walker::GameMapStatus;
use walker::LoadError;
use walker::Point;

const SIMPLE: &str = "####\n#.x#\n#o.#\n####\n";

const MEDIUM: &str = "##########\n#o.......#\n#.####.#.#\n#.#..#.#.#\n#.#.##.#.#\n#...#..#x#\n##########\n";

const DOUBLE_ORIGIN: &str = "####\n#ox#\n#o.#\n####\n";

const MISSING_TARGET: &str = "####\n#..#\n#o.#\n####\n";

fn lines_of(text: &str) -> Vec<String> {
    text.lines().map(|l| l.to_string()).collect()
}

fn load(text: &str) -> Result<GameMap, LoadError> {
    GameMap::from_lines(&lines_of(text))
}

fn get_simple_gm() -> Result<GameMap, LoadError> {
    load(SIMPLE)
}

fn get_medium_gm() -> Result<GameMap, LoadError> {
    load(MEDIUM)
}

fn get_double_origin_gm() -> Result<GameMap, LoadError> {
    load(DOUBLE_ORIGIN)
}

fn get_missing_target_gm() -> Result<GameMap, LoadError> {
    load(MISSING_TARGET)
}

#[test]
fn read_simple_map() {
    let gm = get_simple_gm();
    assert!(gm.is_ok());
    let gm = gm.unwrap();
    assert_eq!(gm.dimensions(), Point::new(4, 4));
    assert_eq!(gm.origin(), Point::new(2, 1));
    assert_eq!(gm.target(), Point::new(1, 2));

    let gm = get_double_origin_gm();
    assert!(gm.is_err());

    let gm = get_missing_target_gm();
    assert!(gm.is_err());
}

#[test]
fn cell_type_conversion() {
    let c: char = CellType::Floor.into();
    assert_eq!(c, '.');
    let c: char = CellType::Wall.into();
    assert_eq!(c, '#');

    let cell = CellType::try_from('.');
    assert_eq!(Ok(CellType::Floor), cell);
    let cell = CellType::try_from('K');
    assert_eq!(Err(ConversionError::CellType('K')), cell);
}

#[test]
fn display() {
    let gm = get_simple_gm().unwrap();
    let text = gm.render();
    let expected_text = "####\n#.x#\n#o.#\n####\n";
    assert_eq!(&text, expected_text);
}

#[test]
fn get_point() {
    let gm = get_simple_gm().unwrap();
    let p = Point::new(0, 0);
    let cell = gm.get_point(p);
    assert_eq!(cell, Some(&CellType::Wall));

    let p = Point::new(100, 0);
    let cell = gm.get_point(p);
    assert_eq!(cell, None);
}

#[test]
fn solve() {
    let mut gm = get_simple_gm().unwrap();
    assert!(gm.heuristics_fit());
    let _ = gm.solve();
    let path = gm.path().unwrap();
    assert_eq!(path.len(), 3);
    let mut gm = get_medium_gm().unwrap();
    assert!(gm.heuristics_fit());
    let _ = gm.solve();
    println!("{}", gm.render())
}

#[test]
fn every_glyph_converts_both_ways() {
    assert_eq!(CellType::try_from('#'), Ok(CellType::Wall));
    assert_eq!(CellType::try_from('.'), Ok(CellType::Floor));
    assert_eq!(CellType::try_from('x'), Ok(CellType::Target));
    assert_eq!(CellType::try_from('o'), Ok(CellType::Origin));
    assert_eq!(CellType::try_from('*'), Err(ConversionError::CellType('*')));
    assert_eq!(CellType::try_from(' '), Err(ConversionError::CellType(' ')));
    assert_eq!(char::from(CellType::Target), 'x');
    assert_eq!(char::from(CellType::Origin), 'o');
    assert_eq!(char::from(CellType::Path), '*');
}

#[test]
fn only_floor_and_target_can_be_traversed() {
    assert!(CellType::Floor.can_traverse());
    assert!(CellType::Target.can_traverse());
    assert!(!CellType::Wall.can_traverse());
    assert!(!CellType::Origin.can_traverse());
    assert!(!CellType::Path.can_traverse());
    assert!(CellType::Target.is_target());
    assert!(!CellType::Floor.is_target());
}

#[test]
fn two_origins_are_one_too_many() {
    assert_eq!(
        get_double_origin_gm().err(),
        Some(LoadError::GameMap(GameMapError::MoreThanOneOrigin))
    );
}

#[test]
fn no_target_is_a_missing_target() {
    assert_eq!(
        get_missing_target_gm().err(),
        Some(LoadError::GameMap(GameMapError::MissingTarget))
    );
}

#[test]
fn two_targets_are_one_too_many() {
    assert_eq!(
        load("#x#\n#o#\n#x#\n").err(),
        Some(LoadError::GameMap(GameMapError::MoreThanOneTarget))
    );
}

#[test]
fn no_origin_is_a_missing_origin() {
    assert_eq!(load("#x#\n#.#\n").err(), Some(LoadError::GameMap(GameMapError::MissingOrigin)));
}

#[test]
fn no_lines_miss_the_target() {
    assert_eq!(load("").err(), Some(LoadError::GameMap(GameMapError::MissingTarget)));
}

#[test]
fn neither_target_nor_origin_misses_the_target_first() {
    assert_eq!(load("##\n..\n").err(), Some(LoadError::GameMap(GameMapError::MissingTarget)));
}

#[test]
fn an_unknown_character_fails_to_convert() {
    assert_eq!(
        load("####\n#Kx#\n#o.#\n").err(),
        Some(LoadError::Conversion(ConversionError::CellType('K')))
    );
}

#[test]
fn the_first_failure_in_reading_order_wins() {
    // The second origin stands in a line before the unknown character.
    assert_eq!(
        load("oo\nK.\n").err(),
        Some(LoadError::GameMap(GameMapError::MoreThanOneOrigin))
    );
    // A line is decoded as a whole before its cells are examined.
    assert_eq!(load("ooK\n").err(), Some(LoadError::Conversion(ConversionError::CellType('K'))));
    // Of two unknown characters in a line the left one is reported.
    assert_eq!(load("xQZ\n").err(), Some(LoadError::Conversion(ConversionError::CellType('Q'))));
    // Within a line the cells are examined left to right.
    assert_eq!(load("xxoo\n").err(), Some(LoadError::GameMap(GameMapError::MoreThanOneTarget)));
    assert_eq!(load("ooxx\n").err(), Some(LoadError::GameMap(GameMapError::MoreThanOneOrigin)));
}

#[test]
fn a_loaded_map_is_unsolved() {
    let gm = get_simple_gm().unwrap();
    assert_eq!(gm.status(), GameMapStatus::Unsolved);
    assert!(gm.path().is_none());
    assert_eq!(GameMapStatus::default(), GameMapStatus::Unsolved);
}

#[test]
fn get_point_answers_inside_the_bounds_only() {
    let gm = get_simple_gm().unwrap();
    assert_eq!(gm.get_point(Point::new(1, 1)), Some(&CellType::Floor));
    assert_eq!(gm.get_point(Point::new(1, 2)), Some(&CellType::Target));
    assert_eq!(gm.get_point(Point::new(2, 1)), Some(&CellType::Origin));
    assert_eq!(gm.get_point(Point::new(3, 3)), Some(&CellType::Wall));
    assert_eq!(gm.get_point(Point::new(4, 0)), None);
    assert_eq!(gm.get_point(Point::new(0, 4)), None);
}

#[test]
fn distance_to_target_is_the_squared_distance() {
    let gm = get_simple_gm().unwrap();
    assert_eq!(gm.distance_to_target(Point::new(1, 2)), 0);
    assert_eq!(gm.distance_to_target(Point::new(2, 1)), 2);
    assert_eq!(gm.distance_to_target(Point::new(3, 0)), 8);
    assert_eq!(gm.grid().distance_to_target(Point::new(0, 0)), 5);
}

#[test]
fn rendering_an_unsolved_map_gives_back_its_lines() {
    for text in [SIMPLE, MEDIUM, "ox\n", "x\n.\no\n", "#o..x#\n"] {
        let gm = load(text).unwrap();
        assert_eq!(gm.render(), text);
    }
}

#[test]
fn rows_need_not_be_of_one_length() {
    // The bounding coordinate goes by the first row.
    let gm = load("o.x\n.\n.....\n").unwrap();
    assert_eq!(gm.dimensions(), Point::new(3, 3));
    assert_eq!(gm.get_point(Point::new(1, 0)), Some(&CellType::Floor));
    assert_eq!(gm.get_point(Point::new(1, 1)), None);
    assert_eq!(gm.get_point(Point::new(2, 2)), Some(&CellType::Floor));
    assert_eq!(gm.get_point(Point::new(2, 3)), None);
    // A short row is rendered as it is, a long one up to the bounding column.
    assert_eq!(gm.render(), "o.x\n.\n...\n");
}

#[test]
fn the_example_map_is_solved_in_three_coordinates() {
    let mut gm = get_simple_gm().unwrap();
    assert_eq!(gm.origin(), Point::new(2, 1));
    assert_eq!(gm.target(), Point::new(1, 2));
    assert!(gm.heuristics_fit());
    assert_eq!(gm.solve(), Ok(()));
    assert_eq!(gm.status(), GameMapStatus::Solved);
    let path = gm.path().unwrap();
    assert_eq!(path.points(), &vec![Point::new(1, 2), Point::new(1, 1), Point::new(2, 1)]);
    assert_eq!(gm.render(), "####\n#**#\n#*.#\n####\n");
}

#[test]
fn a_path_runs_from_the_target_to_the_origin() {
    let mut gm = get_medium_gm().unwrap();
    assert!(gm.heuristics_fit());
    assert_eq!(gm.solve(), Ok(()));
    let points = gm.path().unwrap().points().clone();
    assert_eq!(points.first(), Some(&gm.target()));
    assert_eq!(points.last(), Some(&gm.origin()));
    for pair in points.windows(2) {
        let (to, from) = (pair[0], pair[1]);
        assert_eq!(from.x.abs_diff(to.x) + from.y.abs_diff(to.y), 1);
        assert!(gm.get_point(to).unwrap().can_traverse());
    }
}

#[test]
fn solving_twice_fails_and_keeps_the_path() {
    let mut gm = get_simple_gm().unwrap();
    assert!(gm.heuristics_fit());
    assert_eq!(gm.solve(), Ok(()));
    let first = gm.path().unwrap().points().clone();
    let text = gm.render();
    assert_eq!(gm.solve(), Err(GameMapError::AlreadySolved));
    assert_eq!(gm.path().unwrap().points(), &first);
    assert_eq!(gm.status(), GameMapStatus::Solved);
    assert_eq!(gm.render(), text);
}

#[test]
fn an_enclosed_target_cannot_be_found() {
    let text = "#####\n#o#x#\n#.###\n#...#\n#####\n";
    let mut gm = load(text).unwrap();
    assert!(gm.heuristics_fit());
    assert_eq!(gm.solve(), Err(GameMapError::CouldNotFindPath));
    assert_eq!(gm.status(), GameMapStatus::Unsolved);
    assert!(gm.path().is_none());
    assert_eq!(gm.render(), text);
    // A search that failed may be made again, and fails again.
    assert_eq!(gm.solve(), Err(GameMapError::CouldNotFindPath));
}

#[test]
fn the_origin_is_not_stepped_onto_again() {
    // The only way to the target would lead back over the origin.
    let mut gm = load(".ox\n").unwrap();
    assert_eq!(gm.solve(), Ok(()));
    assert_eq!(gm.path().unwrap().points(), &vec![Point::new(0, 2), Point::new(0, 1)]);
    assert_eq!(gm.render(), ".**\n");
}

#[test]
fn the_route_found_need_not_be_the_shortest() {
    // The frontier is a stack and an open node takes the longer way when it
    // is reached again, so the route goes round by the right.
    let mut gm = load("o..\n...\nx##\n").unwrap();
    assert!(gm.heuristics_fit());
    assert_eq!(gm.solve(), Ok(()));
    assert_eq!(
        gm.path().unwrap().points(),
        &vec![
            Point::new(2, 0),
            Point::new(1, 0),
            Point::new(1, 1),
            Point::new(1, 2),
            Point::new(0, 2),
            Point::new(0, 1),
            Point::new(0, 0),
        ]
    );
    assert_eq!(gm.render(), "***\n***\n*##\n");
}

#[test]
fn a_search_from_outside_the_bounds_steps_inside() {
    // The origin stands in a row that is longer than the first.
    let mut gm = load("x.\n..o\n").unwrap();
    assert_eq!(gm.dimensions(), Point::new(2, 2));
    assert_eq!(gm.origin(), Point::new(1, 2));
    assert_eq!(gm.solve(), Ok(()));
    let points = gm.path().unwrap().points().clone();
    assert_eq!(points.first(), Some(&Point::new(0, 0)));
    assert_eq!(points.last(), Some(&Point::new(1, 2)));
    assert_eq!(points[points.len() - 2], Point::new(1, 1));
}

#[test]
fn a_short_row_is_a_gap_in_the_floor() {
    // The middle row ends before the column that would connect the two.
    let mut gm = load("o.\n#\n.x\n").unwrap();
    assert!(gm.heuristics_fit());
    assert_eq!(gm.solve(), Err(GameMapError::CouldNotFindPath));
}

#[test]
fn small_maps_fit_the_machine() {
    assert!(get_simple_gm().unwrap().heuristics_fit());
    assert!(get_medium_gm().unwrap().heuristics_fit());
    assert!(load("x\n\n\no\n").unwrap().heuristics_fit());
}

#[test]
fn config_keeps_the_path() {
    let config = AppConfig::new("maps/simple.map".to_string());
    assert_eq!(config.path(), "maps/simple.map");
}
