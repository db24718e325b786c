use libadvent::{Direction, Grid, Offset, Point};

#[test]
fn offset_round_trip() {
    let p = Point(3, -4);
    let o = Offset(-7, 11);
    let q = p.offset(o);
    assert_eq!(q, Point(-4, 7));
    assert_eq!(q.offset(o.neg()), p);
    assert_eq!(q.offset_back(o), p);
}

#[test]
fn direction_cycles() {
    for d in Direction::all() {
        assert_eq!(d.opposite().opposite(), d);
        assert_eq!(
            d.rotate_clockwise()
                .rotate_clockwise()
                .rotate_clockwise()
                .rotate_clockwise(),
            d
        );
    }
    assert_eq!(Direction::Up.rotate_clockwise(), Direction::Right);
    assert_eq!(Direction::Left.opposite(), Direction::Right);
    assert_eq!(Direction::Up.vector(), Offset(-1, 0));
    assert_eq!(Direction::Right.vector(), Offset(0, 1));
    assert_eq!(Direction::Down.axis_ord(), 0);
    assert_eq!(Direction::Left.axis_ord(), 1);
}

#[test]
fn point_order_by_distance_then_row_then_col() {
    assert!(Point(0, 1) < Point(1, 1));
    assert!(Point(-1, 0) < Point(0, 1));
    assert!(Point(0, -1) < Point(0, 1));
    assert!(Point(3, 4) > Point(0, 4));
    assert!(Point(5, 0) > Point(3, 4));
    assert!(Point(isize::MIN, isize::MIN) > Point(isize::MAX, isize::MAX));
}

#[test]
fn point_helpers() {
    let mut p = Point(-1, 7);
    p.rem((5, 3));
    assert_eq!(p, Point(4, 1));
    assert_eq!(Point(1, 2).manhattan(Point(-3, 5)), 7);
    assert_eq!(Point(1, 2).ortho_diff(Point(-3, 5)), (-3, 4));
    assert_eq!(Point(-1, 2).as_usize(), None);
    assert_eq!(Point(1, 2).as_usize_lim((2, 3)), Some((1, 2)));
    assert_eq!(Point(2, 2).as_usize_lim((2, 3)), None);
    assert_eq!(Point::from_1d(7, 3), Point(2, 1));
    assert_eq!(Point::from_1d(usize::MAX, 2), Point((usize::MAX / 2) as isize, 1));
    assert_eq!(Point::new(4, 5), Point(4, 5));
    assert_eq!(Point::parse_xy("7,8", ","), Some(Point(8, 7)));
    assert_eq!(Point::parse_yx("7,8", ","), Some(Point(7, 8)));
    assert_eq!(Point::parse_xy("7", ","), None);
    assert_eq!(Offset::parse_xy("-1 2", " "), Some(Offset(2, -1)));
    assert_eq!(Offset::parse_yx("-1 2", " "), Some(Offset(-1, 2)));
    assert_eq!(Offset(2, -3).scale(-2), Offset(-4, 6));
}

#[test]
fn new_grid_is_filled() {
    let g = Grid::new(7u32, 3, 4);
    assert_eq!(g.size(), (3, 4));
    for y in 0..3 {
        for x in 0..4 {
            assert_eq!(g.get(Point(y, x)), Some(&7));
        }
    }
    assert_eq!(g.get(Point(3, 0)), None);
    assert_eq!(g.get(Point(0, -1)), None);
}

#[test]
fn grid_from_flat_list() {
    let g = Grid::new_from(vec![1, 2, 3, 4, 5, 6], 3).unwrap();
    assert_eq!(g.height(), 2);
    assert_eq!(g.width(), 3);
    assert_eq!(g.get(Point(1, 0)), Some(&4));
    assert!(Grid::new_from(vec![1, 2, 3, 4, 5], 3).is_none());
    assert!(Grid::new_from(Vec::<i32>::new(), 3).is_none());
    assert!(Grid::new_from(vec![1], 0).is_none());
}

#[test]
fn grid_from_rows() {
    let g = Grid::from_rows(vec![vec!['a', 'b'], vec!['c', 'd']]).unwrap();
    assert_eq!(g.get(Point(1, 1)), Some(&'d'));
    assert!(Grid::from_rows(vec![vec!['a', 'b'], vec!['c']]).is_none());
    assert!(Grid::<char>::from_rows(vec![]).is_none());
}

#[test]
fn swap_same_point_changes_nothing() {
    let mut g = Grid::new_from(vec![1, 2, 3, 4], 2).unwrap();
    g.swap(Point(0, 1), Point(0, 1));
    g.swap(Point(5, 5), Point(5, 5));
    assert_eq!(g.into_entries().into_iter().map(|e| e.1).collect::<Vec<_>>(), vec![1, 2, 3, 4]);
}

#[test]
fn swap_exchanges_two_cells() {
    let mut g = Grid::new_from(vec![1, 2, 3, 4], 2).unwrap();
    g.swap(Point(0, 0), Point(1, 1));
    assert_eq!(g.get(Point(0, 0)), Some(&4));
    assert_eq!(g.get(Point(1, 1)), Some(&1));
    assert_eq!(g.get(Point(0, 1)), Some(&2));
    g.swap(Point(0, 0), Point(2, 0));
    assert_eq!(g.get(Point(0, 0)), Some(&4));
    let mut all: Vec<i32> = g.iter().into_iter().map(|e| *e.1).collect();
    all.sort();
    assert_eq!(all, vec![1, 2, 3, 4]);
}

#[test]
fn grid_queries() {
    let mut g = Grid::new_from(vec!['#', '.', 'S', '.', '.', 'S'], 3).unwrap();
    assert_eq!(g.find(&'S'), Some(Point(0, 2)));
    assert_eq!(g.find(&'x'), None);
    assert!(g.is(Point(1, 2), &'S'));
    assert!(!g.is(Point(2, 2), &'S'));
    assert!(g.is_point(Point(0, 2), Point(1, 2)));
    assert!(!g.is_point(Point(0, 0), Point(1, 2)));
    assert!(g.inbounds(Point(1, 2)));
    assert!(!g.inbounds(Point(1, 3)));
    assert!(g.set(Point(0, 0), 'x'));
    assert!(!g.set(Point(0, 3), 'x'));
    assert_eq!(g.get(Point(0, 0)), Some(&'x'));
    let pts: Vec<Point> = g.iter().into_iter().map(|e| e.0).collect();
    assert_eq!(pts[4], Point(1, 1));
    let m = g.map(|c: &char, p: Point| if *c == 'S' { p.0 * 10 + p.1 } else { -1 });
    assert_eq!(m.get(Point(1, 2)), Some(&12));
    assert_eq!(m.get(Point(1, 1)), Some(&-1));
}
