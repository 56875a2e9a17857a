use walker::CostMetric;
use walker::Grid;
use walker::Point;
use walker::Search;
use walker::SearchPhase;

fn grid_of(text: &str) -> Grid {
    let lines: Vec<String> = text.lines().map(|l| l.to_string()).collect();
    Grid::from_lines(&lines).unwrap()
}

#[test]
fn a_search_starts_at_the_origin() {
    let grid = grid_of("####\n#.x#\n#o.#\n####\n");
    assert!(grid.heuristics_fit());
    let search = Search::new(&grid);
    assert_eq!(search.phase(), SearchPhase::Running);
    assert_eq!(search.expansions(), 0);
    assert_eq!(search.frontier(), &vec![Point::new(2, 1)]);
    assert_eq!(search.cache().len(), 1);
    assert_eq!(
        search.cache().get(&Point::new(2, 1)),
        Some(&CostMetric {
            point: Point::new(2, 1),
            to_origin: 0,
            parent: Point::new(2, 1),
            heuristic: 2,
            opened: true,
        })
    );
}

#[test]
fn the_coordinate_discovered_last_is_expanded_first() {
    let grid = grid_of("####\n#.x#\n#o.#\n####\n");
    let mut search = Search::new(&grid);
    search.step(&grid);
    assert_eq!(search.phase(), SearchPhase::Running);
    assert_eq!(search.expansions(), 1);
    assert_eq!(search.frontier(), &vec![Point::new(2, 2), Point::new(1, 1)]);
    assert_eq!(search.cache().get(&Point::new(2, 1)).unwrap().opened, false);
    assert_eq!(
        search.cache().get(&Point::new(2, 2)),
        Some(&CostMetric {
            point: Point::new(2, 2),
            to_origin: 1,
            parent: Point::new(2, 1),
            heuristic: 1,
            opened: true,
        })
    );
    search.step(&grid);
    assert_eq!(search.phase(), SearchPhase::Found);
    assert_eq!(search.expansions(), 2);
    // The node that was not expanded still waits.
    assert_eq!(search.frontier(), &vec![Point::new(2, 2)]);
    assert_eq!(
        search.cache().get(&Point::new(1, 2)),
        Some(&CostMetric {
            point: Point::new(1, 2),
            to_origin: 2,
            parent: Point::new(1, 1),
            heuristic: 0,
            opened: false,
        })
    );
}

#[test]
fn an_open_node_reached_again_takes_the_longer_way() {
    let grid = grid_of("o..#x\n...##\n");
    assert!(grid.heuristics_fit());
    let mut search = Search::new(&grid);
    search.step(&grid);
    search.step(&grid);
    search.step(&grid);
    assert_eq!(
        search.frontier(),
        &vec![Point::new(1, 0), Point::new(1, 1), Point::new(1, 2)]
    );
    let before = *search.cache().get(&Point::new(1, 1)).unwrap();
    assert_eq!((before.to_origin, before.parent, before.opened), (2, Point::new(0, 1), true));
    search.step(&grid);
    let after = *search.cache().get(&Point::new(1, 1)).unwrap();
    assert_eq!((after.to_origin, after.parent, after.opened), (4, Point::new(1, 2), true));
    assert_eq!(after.heuristic, before.heuristic);
    // A settled node is passed over.
    let settled = *search.cache().get(&Point::new(0, 2)).unwrap();
    assert_eq!((settled.to_origin, settled.parent, settled.opened), (2, Point::new(0, 1), false));
    assert_eq!(search.frontier(), &vec![Point::new(1, 0), Point::new(1, 1)]);
}

#[test]
fn a_search_is_exhausted_when_nothing_waits() {
    let grid = grid_of("o..#x\n...##\n");
    let mut search = Search::new(&grid);
    search.run(&grid);
    assert_eq!(search.phase(), SearchPhase::Exhausted);
    assert!(search.frontier().is_empty());
    assert_eq!(search.expansions(), 6);
    assert_eq!(search.cache().len(), 6);
    assert!(search.cache().get(&Point::new(0, 4)).is_none());
}

#[test]
fn a_search_expands_no_more_coordinates_than_the_grid_has_cells() {
    for text in [
        "####\n#.x#\n#o.#\n####\n",
        "o..#x\n...##\n",
        "o..\n...\nx##\n",
        "o.........\n..........\n..........\n.........x\n",
        "ox\n",
        "o#x\n",
    ] {
        let grid = grid_of(text);
        let cells: usize = text.lines().map(|l| l.chars().count()).sum();
        assert!(grid.heuristics_fit());
        let mut search = Search::new(&grid);
        search.run(&grid);
        assert_ne!(search.phase(), SearchPhase::Running);
        assert!(search.expansions() <= cells);
        assert!(search.cache().len() <= cells);
    }
}

#[test]
fn the_target_is_settled_with_nothing_left_to_go() {
    let grid = grid_of("o..\n...\nx##\n");
    let mut search = Search::new(&grid);
    search.run(&grid);
    assert_eq!(search.phase(), SearchPhase::Found);
    assert_eq!(search.expansions(), 6);
    assert_eq!(
        search.cache().get(&grid.target()),
        Some(&CostMetric {
            point: Point::new(2, 0),
            to_origin: 6,
            parent: Point::new(1, 0),
            heuristic: 0,
            opened: false,
        })
    );
    let path = search.cache().get_reverse_path(grid.target()).unwrap();
    assert_eq!(path.len(), 7);
}

#[test]
fn a_run_that_has_ended_stays_as_it_is() {
    let grid = grid_of("####\n#.x#\n#o.#\n####\n");
    let mut search = Search::new(&grid);
    search.run(&grid);
    assert_eq!(search.phase(), SearchPhase::Found);
    let expansions = search.expansions();
    search.run(&grid);
    assert_eq!(search.phase(), SearchPhase::Found);
    assert_eq!(search.expansions(), expansions);
}
