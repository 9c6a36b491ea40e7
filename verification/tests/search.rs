use astar_grid::{astar, get_neighbor_points, manhattan_distance, Grid, Point};

#[test]
fn test_valid_path() {
    let grid = Grid::from_2d(vec![
        vec![false, false, false],
        vec![true, false, true],
        vec![false, false, false],
    ]);

    let start = Point::new(0, 0);
    let end = Point::new(2, 2);

    let path = astar(&grid, start, end).unwrap();

    assert_eq!(
        path,
        vec![
            start,
            Point::new(1, 0),
            Point::new(1, 1),
            Point::new(1, 2),
            end
        ]
    );
}

#[test]
fn test_no_valid_path() {
    let grid = Grid::from_2d(vec![
        vec![false, false, false],
        vec![false, true, true],
        vec![false, true, false],
    ]);

    let start = Point::new(0, 0);
    let end = Point::new(2, 2);

    let path = astar(&grid, start, end);

    assert!(path.is_none());
}

#[test]
fn test_collidable_neighbors() {
    let grid = Grid::from_2d(vec![
        vec![false, false, false],
        vec![true, false, false],
        vec![false, false, false],
    ]);

    let point = Point::new(0, 0);
    let neighbors = get_neighbor_points(&grid, point);
    assert_eq!(neighbors.len(), 1);

    let point2 = Point::new(1, 1);
    let neighbors2 = get_neighbor_points(&grid, point2);
    assert_eq!(neighbors2.len(), 3);

    let point3 = Point::new(2, 1);
    let neighbors3 = get_neighbor_points(&grid, point3);
    assert_eq!(neighbors3.len(), 3);
}

#[test]
fn test_distance() {
    let point1 = Point::new(0, 0);
    let point2 = Point::new(1, 1);
    let point3 = Point::new(2, 2);

    assert_eq!(manhattan_distance(&point1, &point2), 2);
    assert_eq!(manhattan_distance(&point1, &point3), 4);
    assert_eq!(manhattan_distance(&point2, &point3), 2);
}

#[test]
fn test_get_shortest() {
    let grid = Grid::from_2d(vec![
        vec![false, false, false, false, false],
        vec![true, true, true, false, false],
        vec![false, false, false, false, false],
        vec![false, true, true, true, true],
        vec![false, false, false, false, false],
    ]);

    let start = Point::new(0, 0);
    let end = Point::new(4, 4);

    let path = astar(&grid, start, end).unwrap();

    assert_eq!(path.first(), Some(&start));
    assert_eq!(path.last(), Some(&end));
    assert_eq!(path.len(), 15);

    for window in path.windows(2) {
        let current = window[0];
        let next = window[1];
        assert_eq!(
            manhattan_distance(&current, &next),
            1,
            "Points {current:?} and {next:?} are not adjacent"
        );
    }

    for point in &path {
        assert!(
            !grid.get(point.x, point.y).unwrap(),
            "Path contains collision at {point:?}"
        );
    }
}

#[test]
fn same_start_and_end_is_single_point_path() {
    let grid = Grid::new(3, 3);
    let start = Point::new(1, 2);

    let path = astar(&grid, start, start).unwrap();

    assert_eq!(path, vec![start]);
}

#[test]
fn end_surrounded_by_blocked_cells_has_no_path() {
    let mut grid = Grid::new(3, 3);
    assert!(grid.set(1, 0, true));
    assert!(grid.set(0, 1, true));
    assert!(grid.set(2, 1, true));
    assert!(grid.set(1, 2, true));

    let path = astar(&grid, Point::new(0, 0), Point::new(1, 1));

    assert!(path.is_none());
}

#[test]
fn repeated_searches_return_equal_paths() {
    let grid = Grid::from_2d(vec![
        vec![false, false, false],
        vec![true, false, true],
        vec![false, false, false],
    ]);
    let start = Point::new(0, 0);
    let end = Point::new(2, 2);

    let first = astar(&grid, start, end);
    let second = astar(&grid, start, end);

    assert_eq!(first, second);
    assert!(first.is_some());
}

#[test]
fn repeated_searches_agree_when_no_path_exists() {
    let grid = Grid::from_2d(vec![
        vec![false, true, false],
        vec![false, true, false],
        vec![false, true, false],
    ]);
    let start = Point::new(0, 0);
    let end = Point::new(2, 0);

    assert_eq!(astar(&grid, start, end), astar(&grid, start, end));
    assert!(astar(&grid, start, end).is_none());
}

#[test]
fn path_through_open_middle_column_has_length_five() {
    let grid = Grid::from_2d(vec![
        vec![false, false, false],
        vec![true, false, true],
        vec![false, false, false],
    ]);

    let path = astar(&grid, Point::new(0, 0), Point::new(2, 2)).unwrap();

    assert_eq!(path.len(), 5);
    assert!(path.contains(&Point::new(1, 1)));
}

#[test]
fn full_wall_separates_start_from_end() {
    let grid = Grid::from_2d(vec![
        vec![false, true, false],
        vec![false, true, false],
        vec![false, true, false],
    ]);

    assert!(astar(&grid, Point::new(0, 1), Point::new(2, 1)).is_none());
}

#[test]
fn serpentine_corridor_path_is_shortest() {
    let grid = Grid::from_2d(vec![
        vec![false, false, false, false, false],
        vec![true, true, true, false, false],
        vec![false, false, false, false, false],
        vec![false, true, true, true, true],
        vec![false, false, false, false, false],
    ]);

    let path = astar(&grid, Point::new(0, 0), Point::new(4, 4)).unwrap();

    assert_eq!(path.len(), 15);
    // each step moves exactly one cell, and no point repeats, so the cost
    // from the start rises by exactly one with every point of the path
    for window in path.windows(2) {
        assert_eq!(manhattan_distance(&window[0], &window[1]), 1);
    }
    for i in 0..path.len() {
        for j in (i + 1)..path.len() {
            assert_ne!(path[i], path[j]);
        }
    }
}

#[test]
fn blocked_start_or_end_yields_no_path() {
    let mut grid = Grid::new(2, 2);
    assert!(grid.set(0, 0, true));

    assert!(astar(&grid, Point::new(0, 0), Point::new(1, 1)).is_none());
    assert!(astar(&grid, Point::new(1, 1), Point::new(0, 0)).is_none());
}

#[test]
fn out_of_bounds_endpoints_yield_no_path() {
    let grid = Grid::new(2, 2);

    assert!(astar(&grid, Point::new(-1, 0), Point::new(1, 1)).is_none());
    assert!(astar(&grid, Point::new(0, 0), Point::new(2, 0)).is_none());
    assert!(astar(&Grid::new(0, 0), Point::new(0, 0), Point::new(0, 0)).is_none());
}

#[test]
fn manhattan_distance_handles_negative_coordinates() {
    assert_eq!(
        manhattan_distance(&Point::new(-2, -3), &Point::new(1, 1)),
        7
    );
    assert_eq!(manhattan_distance(&Point::new(5, 5), &Point::new(5, 5)), 0);
}

#[test]
fn neighbors_come_in_probe_order() {
    let grid = Grid::new(3, 3);
    let neighbors = get_neighbor_points(&grid, Point::new(1, 1));

    // down, right, up, left
    assert_eq!(
        neighbors,
        vec![
            Point::new(1, 2),
            Point::new(2, 1),
            Point::new(1, 0),
            Point::new(0, 1)
        ]
    );
}
