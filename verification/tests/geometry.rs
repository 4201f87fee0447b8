use smeagol::BoundingBox;
use smeagol::Cell;
use smeagol::Position;
use smeagol::Quadrant;

#[test]
fn cell_states() {
    assert_eq!(Cell::new(true), Cell::Alive);
    assert_eq!(Cell::new(false), Cell::Dead);
    assert!(Cell::Alive.is_alive());
    assert!(!Cell::Dead.is_alive());
}

#[test]
fn position_offset_and_quadrant() {
    let p = Position::new(3, -4);
    assert_eq!(p.offset(-5, 6), Position::new(-2, 2));
    assert_eq!(Position::new(-1, -1).quadrant(), Quadrant::Northwest);
    assert_eq!(Position::new(0, -1).quadrant(), Quadrant::Northeast);
    assert_eq!(Position::new(-1, 0).quadrant(), Quadrant::Southwest);
    assert_eq!(Position::new(0, 0).quadrant(), Quadrant::Southeast);
}

#[test]
fn bounding_box_operations() {
    let a = BoundingBox::new(Position::new(-3, -2), Position::new(1, 4));
    assert_eq!(a.upper_left(), Position::new(-3, -2));
    assert_eq!(a.lower_right(), Position::new(1, 4));

    let b = BoundingBox::new(Position::new(0, -5), Position::new(6, 0));
    let c = a.combine(b);
    assert_eq!(c.upper_left(), Position::new(-3, -5));
    assert_eq!(c.lower_right(), Position::new(6, 4));

    let shifted = a.offset(10, -10);
    assert_eq!(shifted.upper_left(), Position::new(7, -12));
    assert_eq!(shifted.lower_right(), Position::new(11, -6));

    let padded = a.pad(2);
    assert_eq!(padded.upper_left(), Position::new(-5, -4));
    assert_eq!(padded.lower_right(), Position::new(3, 6));
}
