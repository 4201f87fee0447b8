use smeagol::keys::decrease_scale;
use smeagol::keys::decrease_step;
use smeagol::keys::increase_scale;
use smeagol::keys::increase_step;
use smeagol::keys::key_commands;
use smeagol::keys::pan_down;
use smeagol::keys::pan_left;
use smeagol::keys::pan_right;
use smeagol::keys::pan_up;
use smeagol::keys::toggle_simulation;
use smeagol::keys::MAX_SCALE;
use smeagol::keys::MIN_SCALE;
use smeagol::keys::MOVEMENT_FACTOR;

#[test]
fn change_scale() {
    let mut scale: u64 = 8;

    increase_scale(&mut scale);
    assert_eq!(scale, 16);

    decrease_scale(&mut scale);
    assert_eq!(scale, 8);

    let mut min_scale = MIN_SCALE;
    decrease_scale(&mut min_scale);
    assert_eq!(min_scale, MIN_SCALE);

    let mut max_scale = MAX_SCALE;
    increase_scale(&mut max_scale);
    assert_eq!(max_scale, MAX_SCALE);
}

#[test]
fn pan() {
    let mut center: (i64, i64) = (0, 0);
    let scale: u64 = 4;

    pan_down(&mut center, scale);
    assert_eq!(center, (0, 4 * MOVEMENT_FACTOR as i64));

    pan_up(&mut center, scale);
    assert_eq!(center, (0, 0));

    pan_right(&mut center, scale);
    assert_eq!(center, (4 * MOVEMENT_FACTOR as i64, 0));

    pan_left(&mut center, scale);
    assert_eq!(center, (0, 0));
}

#[test]
fn change_step() {
    let mut step: u64 = 4;

    increase_step(&mut step);
    assert_eq!(step, 8);

    decrease_step(&mut step);
    assert_eq!(step, 4);

    let mut min_step: u64 = 1;
    decrease_step(&mut min_step);
    assert_eq!(min_step, 1);

    let mut max_step: u64 = 1 << 63;
    increase_step(&mut max_step);
    assert_eq!(max_step, 1 << 63);
}

#[test]
fn toggle() {
    let mut running = false;
    toggle_simulation(&mut running);
    assert!(running);
    toggle_simulation(&mut running);
    assert!(!running);
}

#[test]
fn command_table() {
    assert_eq!(key_commands().len(), 10);
}
