use std::collections::HashSet;

use smeagol::life::Life;
use smeagol::BoundingBox;
use smeagol::Position;

fn glider() -> Vec<Position> {
    vec![
        Position::new(1, 0),
        Position::new(2, 1),
        Position::new(0, 2),
        Position::new(1, 2),
        Position::new(2, 2),
    ]
}

fn pulsar() -> Vec<Position> {
    let arm = [
        (2i64, 1i64),
        (3, 1),
        (4, 1),
        (1, 2),
        (6, 2),
        (1, 3),
        (6, 3),
        (1, 4),
        (6, 4),
        (2, 6),
        (3, 6),
        (4, 6),
    ];
    let mut cells = Vec::new();
    for &(x, y) in arm.iter() {
        for &(sx, sy) in [(1i64, 1i64), (1, -1), (-1, 1), (-1, -1)].iter() {
            cells.push(Position::new(sx * x, sy * y));
        }
    }
    cells
}

fn cell_set(life: &Life) -> HashSet<(i64, i64)> {
    life.get_alive_cells().into_iter().map(|p| (p.x, p.y)).collect()
}

fn translated(cells: &[Position], dx: i64, dy: i64) -> HashSet<(i64, i64)> {
    cells.iter().map(|p| (p.x + dx, p.y + dy)).collect()
}

#[test]
fn glider_period() {
    let mut life = Life::from_alive_cells(glider());
    life.set_step_log_2(0);

    for _ in 0..4 {
        life.step();
    }
    assert_eq!(cell_set(&life), translated(&glider(), 1, 1));

    for _ in 0..36 {
        life.step();
    }
    assert_eq!(life.generation(), 40);
    assert_eq!(cell_set(&life), translated(&glider(), 10, 10));
}

#[test]
fn glider_large_jump() {
    let mut life = Life::from_alive_cells(glider());
    life.set_step_log_2(10);
    life.step();
    assert_eq!(life.generation(), 1024);
    assert_eq!(cell_set(&life), translated(&glider(), 256, 256));
}

#[test]
fn pulsar_period() {
    let mut life = Life::from_alive_cells(pulsar());
    life.set_step_log_2(0);
    let before = cell_set(&life);
    for _ in 0..3 {
        life.step();
    }
    assert_eq!(cell_set(&life), before);
}

#[test]
fn pulsar_fast_forward() {
    let mut life = Life::from_alive_cells(pulsar());
    life.set_step_log_2(10);
    let before = cell_set(&life);
    for _ in 0..3 {
        life.step();
    }
    assert_eq!(life.generation(), 3 * 1024);
    assert_eq!(cell_set(&life), before);
}

#[test]
fn blinker_step_size_change() {
    let blinker = vec![Position::new(0, 0), Position::new(1, 0), Position::new(2, 0)];
    let mut life = Life::from_alive_cells(blinker.clone());
    life.set_step_log_2(0);

    life.step();
    let vertical: HashSet<(i64, i64)> = [(1i64, -1i64), (1, 0), (1, 1)].into_iter().collect();
    assert_eq!(cell_set(&life), vertical);

    life.set_step_log_2(1);
    life.step();
    // a blinker has period 2, so after 1 + 2 = 3 generations it shows its
    // vertical phase again
    assert_eq!(life.generation(), 3);
    assert_eq!(cell_set(&life), vertical);

    life.set_step_log_2(0);
    life.step();
    // after an even total of generations it is back to the starting cells
    assert_eq!(life.generation(), 4);
    assert_eq!(cell_set(&life), translated(&blinker, 0, 0));
}

#[test]
fn advancing_twice_matches_doubled_exponent() {
    let mut once = Life::from_alive_cells(glider());
    once.set_step_log_2(3);
    once.step();
    once.step();

    let mut twice = Life::from_alive_cells(glider());
    twice.set_step_log_2(4);
    twice.step();

    assert_eq!(once.generation(), twice.generation());
    assert_eq!(cell_set(&once), cell_set(&twice));
}

#[test]
fn set_get_roundtrip() {
    let mut life = Life::new();
    let p = Position::new(3, -5);
    assert!(!life.get_cell(p).is_alive());
    life.set_cell_alive(p);
    assert!(life.get_cell(p).is_alive());
    assert!(life.get_alive_cells().contains(&p));
    assert_eq!(life.population(), 1);

    // far outside the initial root: the root expands to fit
    let far = Position::new(100_000, -200_000);
    life.set_cell_alive(far);
    assert!(life.get_cell(far).is_alive());
    assert!(life.get_cell(p).is_alive());
    assert_eq!(life.population(), 2);
}

#[test]
fn empty_universe_stays_empty() {
    let mut life = Life::new();
    assert_eq!(life.population(), 0);
    assert_eq!(life.bounding_box(), None);
    life.set_step_log_2(5);
    life.step();
    assert_eq!(life.population(), 0);
    assert_eq!(life.generation(), 32);
    assert!(life.get_alive_cells().is_empty());
}

#[test]
fn bounding_box_is_tight() {
    let mut life = Life::new();
    life.set_cell_alive(Position::new(-3, 2));
    life.set_cell_alive(Position::new(7, -4));
    let bb = life.bounding_box().unwrap();
    assert_eq!(bb.upper_left(), Position::new(-3, -4));
    assert_eq!(bb.lower_right(), Position::new(7, 2));
}

#[test]
fn contains_alive_cells_spanning_quadrants() {
    let mut life = Life::new();
    life.set_cell_alive(Position::new(5, 5));
    // a box spanning all four quadrants that holds the cell
    assert!(life.contains_alive_cells(BoundingBox::new(
        Position::new(-10, -10),
        Position::new(10, 10)
    )));
    // boxes that miss it, on either side of the axes
    assert!(!life.contains_alive_cells(BoundingBox::new(
        Position::new(-10, -10),
        Position::new(4, 10)
    )));
    assert!(!life.contains_alive_cells(BoundingBox::new(
        Position::new(-10, -10),
        Position::new(10, 4)
    )));
    // a degenerate box on the cell itself
    assert!(life.contains_alive_cells(BoundingBox::new(
        Position::new(5, 5),
        Position::new(5, 5)
    )));
}

#[test]
fn step_size_tracks_exponent() {
    let mut life = Life::new();
    assert_eq!(life.step_size(), 1);
    assert_eq!(life.step_log_2(), 0);
    life.set_step_log_2(10);
    assert_eq!(life.step_size(), 1024);
    assert_eq!(life.step_log_2(), 10);
}
