use astar_grid::{Grid, Node, Point};

#[test]
fn new_grid_is_fully_walkable() {
    let grid = Grid::new(4, 3);

    assert_eq!(grid.width(), 4);
    assert_eq!(grid.height(), 3);
    for y in 0..3 {
        for x in 0..4 {
            assert_eq!(grid.get(x, y), Some(false));
            assert!(grid.is_walkable(Point::new(x, y)));
        }
    }
}

#[test]
fn from_2d_takes_width_from_first_row() {
    let grid = Grid::from_2d(vec![vec![false, true], vec![true, false]]);

    assert_eq!(grid.width(), 2);
    assert_eq!(grid.height(), 2);
    assert_eq!(grid.get(0, 0), Some(false));
    assert_eq!(grid.get(1, 0), Some(true));
    assert_eq!(grid.get(0, 1), Some(true));
    assert_eq!(grid.get(1, 1), Some(false));
}

#[test]
fn from_2d_short_rows_are_blocked_beyond_their_length() {
    // the second row is shorter than the first: its missing cell counts as
    // blocked
    let grid = Grid::from_2d(vec![vec![false, false], vec![false]]);

    assert_eq!(grid.width(), 2);
    assert_eq!(grid.height(), 2);
    assert_eq!(grid.get(0, 1), Some(false));
    assert_eq!(grid.get(1, 1), Some(true));
    assert!(!grid.is_walkable(Point::new(1, 1)));
}

#[test]
fn from_2d_empty_input_gives_empty_grid() {
    let grid = Grid::from_2d(vec![]);

    assert_eq!(grid.width(), 0);
    assert_eq!(grid.height(), 0);
    assert_eq!(grid.get(0, 0), None);
}

#[test]
fn index_is_row_major_and_bounds_checked() {
    let grid = Grid::new(3, 2);

    assert_eq!(grid.index(0, 0), Some(0));
    assert_eq!(grid.index(2, 0), Some(2));
    assert_eq!(grid.index(0, 1), Some(3));
    assert_eq!(grid.index(2, 1), Some(5));
    assert_eq!(grid.index(3, 0), None);
    assert_eq!(grid.index(0, 2), None);
    assert_eq!(grid.index(-1, 0), None);
    assert_eq!(grid.index(0, -1), None);
}

#[test]
fn get_out_of_bounds_is_none() {
    let grid = Grid::new(2, 2);

    assert_eq!(grid.get(-1, 0), None);
    assert_eq!(grid.get(0, -1), None);
    assert_eq!(grid.get(2, 0), None);
    assert_eq!(grid.get(0, 2), None);
}

#[test]
fn set_writes_in_bounds_and_ignores_out_of_bounds() {
    let mut grid = Grid::new(2, 2);

    assert!(grid.set(1, 0, true));
    assert_eq!(grid.get(1, 0), Some(true));
    assert!(!grid.is_walkable(Point::new(1, 0)));

    assert!(grid.set(1, 0, false));
    assert!(grid.is_walkable(Point::new(1, 0)));

    assert!(!grid.set(2, 0, true));
    assert!(!grid.set(-1, -1, true));
}

#[test]
fn get_mut_gives_access_to_a_cell() {
    let mut grid = Grid::new(2, 2);

    if let Some(cell) = grid.get_mut(0, 1) {
        *cell = true;
    } else {
        panic!("cell (0, 1) is in bounds");
    }

    assert_eq!(grid.get(0, 1), Some(true));
    assert!(grid.get_mut(2, 2).is_none());
}

#[test]
fn walkability_is_false_off_the_grid() {
    let grid = Grid::new(1, 1);

    assert!(grid.is_walkable(Point::new(0, 0)));
    assert!(!grid.is_walkable(Point::new(1, 0)));
    assert!(!grid.is_walkable(Point::new(0, -1)));
}

#[test]
fn node_costs_sum_to_f() {
    let mut node = Node::new(2, 3);

    assert_eq!(node.point, Point::new(2, 3));
    assert_eq!(node.g, 0);
    assert_eq!(node.h, 0);
    assert_eq!(node.parent_index, None);
    assert_eq!(node.f(), 0);

    node.g = 4;
    node.h = 7;
    assert_eq!(node.f(), 11);
}

#[test]
fn nodes_compare_by_point_and_order_by_reversed_f() {
    let mut a = Node::new(0, 0);
    let mut b = Node::new(0, 0);
    a.g = 5;
    b.h = 2;
    // equality looks at the point only
    assert_eq!(a, b);

    let mut c = Node::new(1, 1);
    c.g = 1;
    c.h = 1;
    // the reversed order makes the cheaper node the greater one
    assert!(c > a);
    assert_eq!(a.partial_cmp(&a), Some(std::cmp::Ordering::Equal));

    let mut d = Node::new(2, 2);
    d.g = 0;
    d.h = 2;
    // equal f costs: the tie goes against the larger h
    assert!(d < c);
}

#[test]
fn node_from_point_has_zero_costs() {
    let node = Node::from(Point::new(4, -1));

    assert_eq!(node.point, Point::new(4, -1));
    assert_eq!(node.g, 0);
    assert_eq!(node.h, 0);
    assert_eq!(node.parent_index, None);
}

#[test]
fn points_compare_by_coordinates() {
    assert_eq!(Point::new(3, -4), Point::new(3, -4));
    assert_ne!(Point::new(3, -4), Point::new(-4, 3));
    let p = Point::new(9, 9);
    assert_eq!(p.x, 9);
    assert_eq!(p.y, 9);
}
