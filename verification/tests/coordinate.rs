use libppm::coordinate::Coordinate;
use libppm::coordinate::LineCoordinates;

#[test]
fn test_ensure_x_lr() {
    let line_coords = LineCoordinates::new(0, 0, 1, 1).ensure_x_lr();

    assert_eq!(line_coords, LineCoordinates::new(0, 0, 1, 1));

    let line_coords = LineCoordinates::new(1, 1, 0, 0).ensure_x_lr();

    assert_eq!(line_coords, LineCoordinates::new(0, 0, 1, 1));
}

#[test]
fn test_ensure_y_lr() {
    let line_coords = LineCoordinates::new(0, 0, 1, 1).ensure_y_lr();

    assert_eq!(line_coords, LineCoordinates::new(0, 0, 1, 1));

    let line_coords = LineCoordinates::new(1, 1, 0, 0).ensure_y_lr();

    assert_eq!(line_coords, LineCoordinates::new(0, 0, 1, 1));
}

#[test]
fn delta_wrt_gives_signed_differences() {
    let a = Coordinate::new(0, 0);
    let b = Coordinate::new(1, 1);
    let (dx, dy) = a.delta_wrt(&b);

    assert_eq!(dx, 1);
    assert_eq!(dy, 1);

    let (dx, dy) = b.delta_wrt(&a);

    assert_eq!(dx, -1);
    assert_eq!(dy, -1);
}
