use chromosaic::grid::{Coord, Spiral};

#[test]
fn builds_spiral_points() {
    let expected = [
        Coord::new(0, 0),
        Coord::new(1, 0),
        Coord::new(1, 1),
        Coord::new(0, 1),
        Coord::new(-1, 1),
        Coord::new(-1, 0),
        Coord::new(-1, -1),
        Coord::new(0, -1),
        Coord::new(1, -1),
        Coord::new(2, -1),
        Coord::new(2, 0),
        Coord::new(2, 1),
        Coord::new(2, 2),
        Coord::new(1, 2),
        Coord::new(0, 2),
    ];

    assert_eq!(Spiral::new(expected.len()).points(), expected);
}

#[test]
fn empty_spiral_has_no_points() {
    assert!(Spiral::new(0).points().is_empty());
}

#[test]
fn single_cell_spiral_is_the_origin() {
    assert_eq!(Spiral::new(1).points(), [Coord::new(0, 0)]);
}

#[test]
fn spiral_continues_through_later_rings() {
    let spiral = Spiral::new(26);
    let points = spiral.points();
    assert_eq!(points.len(), 26);
    assert_eq!(points[16], Coord::new(-2, 2));
    assert_eq!(points[20], Coord::new(-2, -2));
    assert_eq!(points[24], Coord::new(2, -2));
    assert_eq!(points[25], Coord::new(3, -2));
}

#[test]
fn shorter_spiral_is_prefix_of_longer() {
    let short = Spiral::new(10);
    let long = Spiral::new(40);
    assert_eq!(short.points(), &long.points()[..10]);
}

#[test]
fn spiral_cells_are_distinct_neighbours() {
    let spiral = Spiral::new(500);
    let points = spiral.points();
    for i in 0..points.len() {
        for j in (i + 1)..points.len() {
            assert_ne!(points[i], points[j]);
        }
        if i + 1 < points.len() {
            let dx = (points[i + 1].x - points[i].x).abs();
            let dy = (points[i + 1].y - points[i].y).abs();
            assert_eq!(dx + dy, 1);
        }
    }
}

#[test]
fn coords_add_componentwise() {
    assert_eq!(Coord::new(3, -4) + Coord::new(-1, 7), Coord::new(2, 3));
    let c = Coord::new(5, 6);
    assert_eq!((c.x, c.y), (5, 6));
}
