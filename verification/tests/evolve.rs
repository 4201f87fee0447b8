use smeagol::store::NodeTemplate;
use smeagol::store::Store;

#[test]
fn nw_glider_jump() {
    let mut store = Store::new();

    let empty = store.create_empty(4);
    let glider = store.create_leaf(vec![
        0b0000_0000_0000_0000,
        0b0000_0000_0000_0000,
        0b0000_0000_0000_0000,
        0b0000_0000_0000_0000,
        0b0000_0000_0000_0000,
        0b0000_0000_0000_0000,
        0b0000_0000_0000_0000,
        0b0000_0000_0000_0000,
        0b0000_0000_0000_0000,
        0b0000_0000_0000_0000,
        0b0000_0000_0000_0000,
        0b0000_0000_0000_0000,
        0b0000_0000_0000_0000,
        0b0000_0000_0000_0010,
        0b0000_0000_0000_0001,
        0b0000_0000_0000_0111,
    ]);

    let level_5 = store.create_interior(NodeTemplate {
        nw: glider,
        ne: empty,
        sw: empty,
        se: empty,
    });

    let jump = level_5.jump(&mut store);
    let expected_jump = store.create_leaf(vec![
        0b0000_0000_0000_0000,
        0b0000_0000_0000_0000,
        0b0000_0000_0000_0000,
        0b0000_0000_0000_0000,
        0b0000_0000_0000_0000,
        0b0000_0000_0000_0000,
        0b0000_0000_0000_0000,
        0b0000_0000_1000_0000,
        0b0000_0000_0100_0000,
        0b0000_0001_1100_0000,
        0b0000_0000_0000_0000,
        0b0000_0000_0000_0000,
        0b0000_0000_0000_0000,
        0b0000_0000_0000_0000,
        0b0000_0000_0000_0000,
        0b0000_0000_0000_0000,
    ]);

    assert_eq!(jump, expected_jump);
}

#[test]
fn ne_glider_jump() {
    let mut store = Store::new();

    let empty = store.create_empty(4);
    let glider = store.create_leaf(vec![
        0b0000_0000_0000_0000,
        0b0000_0000_0000_0000,
        0b0000_0000_0000_0000,
        0b0000_0000_0000_0000,
        0b0000_0000_0000_0000,
        0b0000_0000_0000_0000,
        0b0000_0000_0000_0000,
        0b0000_0000_0000_0000,
        0b0000_0000_0000_0000,
        0b0000_0000_0000_0000,
        0b0000_0000_0000_0000,
        0b0000_0000_0000_0000,
        0b0000_0000_0000_0000,
        0b0100_0000_0000_0000,
        0b1000_0000_0000_0000,
        0b1110_0000_0000_0000,
    ]);

    let level_5 = store.create_interior(NodeTemplate {
        nw: empty,
        ne: glider,
        sw: empty,
        se: empty,
    });

    let jump = level_5.jump(&mut store);
    let expected_jump = store.create_leaf(vec![
        0b0000_0000_0000_0000,
        0b0000_0000_0000_0000,
        0b0000_0000_0000_0000,
        0b0000_0000_0000_0000,
        0b0000_0000_0000_0000,
        0b0000_0000_0000_0000,
        0b0000_0000_0000_0000,
        0b0000_0001_0000_0000,
        0b0000_0010_0000_0000,
        0b0000_0011_1000_0000,
        0b0000_0000_0000_0000,
        0b0000_0000_0000_0000,
        0b0000_0000_0000_0000,
        0b0000_0000_0000_0000,
        0b0000_0000_0000_0000,
        0b0000_0000_0000_0000,
    ]);

    assert_eq!(jump, expected_jump);
}

#[test]
fn sw_glider_jump() {
    let mut store = Store::new();

    let empty = store.create_empty(4);
    let glider = store.create_leaf(vec![
        0b0000_0000_0000_0111,
        0b0000_0000_0000_0001,
        0b0000_0000_0000_0010,
        0b0000_0000_0000_0000,
        0b0000_0000_0000_0000,
        0b0000_0000_0000_0000,
        0b0000_0000_0000_0000,
        0b0000_0000_0000_0000,
        0b0000_0000_0000_0000,
        0b0000_0000_0000_0000,
        0b0000_0000_0000_0000,
        0b0000_0000_0000_0000,
        0b0000_0000_0000_0000,
        0b0000_0000_0000_0000,
        0b0000_0000_0000_0000,
        0b0000_0000_0000_0000,
    ]);

    let level_5 = store.create_interior(NodeTemplate {
        nw: empty,
        ne: empty,
        sw: glider,
        se: empty,
    });

    let jump = level_5.jump(&mut store);
    let expected_jump = store.create_leaf(vec![
        0b0000_0000_0000_0000,
        0b0000_0000_0000_0000,
        0b0000_0000_0000_0000,
        0b0000_0000_0000_0000,
        0b0000_0000_0000_0000,
        0b0000_0000_0000_0000,
        0b0000_0001_1100_0000,
        0b0000_0000_0100_0000,
        0b0000_0000_1000_0000,
        0b0000_0000_0000_0000,
        0b0000_0000_0000_0000,
        0b0000_0000_0000_0000,
        0b0000_0000_0000_0000,
        0b0000_0000_0000_0000,
        0b0000_0000_0000_0000,
        0b0000_0000_0000_0000,
    ]);

    assert_eq!(jump, expected_jump);
}

#[test]
fn se_glider_jump() {
    let mut store = Store::new();

    let empty = store.create_empty(4);
    let glider = store.create_leaf(vec![
        0b1110_0000_0000_0000,
        0b1000_0000_0000_0000,
        0b0100_0000_0000_0000,
        0b0000_0000_0000_0000,
        0b0000_0000_0000_0000,
        0b0000_0000_0000_0000,
        0b0000_0000_0000_0000,
        0b0000_0000_0000_0000,
        0b0000_0000_0000_0000,
        0b0000_0000_0000_0000,
        0b0000_0000_0000_0000,
        0b0000_0000_0000_0000,
        0b0000_0000_0000_0000,
        0b0000_0000_0000_0000,
        0b0000_0000_0000_0000,
        0b0000_0000_0000_0000,
    ]);

    let level_5 = store.create_interior(NodeTemplate {
        nw: empty,
        ne: empty,
        sw: empty,
        se: glider,
    });

    let jump = level_5.jump(&mut store);
    let expected_jump = store.create_leaf(vec![
        0b0000_0000_0000_0000,
        0b0000_0000_0000_0000,
        0b0000_0000_0000_0000,
        0b0000_0000_0000_0000,
        0b0000_0000_0000_0000,
        0b0000_0000_0000_0000,
        0b0000_0011_1000_0000,
        0b0000_0010_0000_0000,
        0b0000_0001_0000_0000,
        0b0000_0000_0000_0000,
        0b0000_0000_0000_0000,
        0b0000_0000_0000_0000,
        0b0000_0000_0000_0000,
        0b0000_0000_0000_0000,
        0b0000_0000_0000_0000,
        0b0000_0000_0000_0000,
    ]);

    assert_eq!(jump, expected_jump);
}

#[test]
fn nw_glider_step() {
    let mut store = Store::new();
    store.set_step_log_2(2);

    let empty = store.create_empty(4);
    let glider = store.create_leaf(vec![
        0b0000_0000_0000_0000,
        0b0000_0000_0000_0000,
        0b0000_0000_0000_0000,
        0b0000_0000_0000_0000,
        0b0000_0000_0000_0000,
        0b0000_0000_0000_0000,
        0b0000_0000_0000_0000,
        0b0000_0000_0000_0000,
        0b0000_0000_0000_0000,
        0b0000_0000_0000_0000,
        0b0000_0000_0000_0000,
        0b0000_0000_0000_0000,
        0b0000_0000_0000_0000,
        0b0000_0000_0000_0010,
        0b0000_0000_0000_0001,
        0b0000_0000_0000_0111,
    ]);

    let level_5 = store.create_interior(NodeTemplate {
        nw: glider,
        ne: empty,
        sw: empty,
        se: empty,
    });

    let step = level_5.step(&mut store);
    let expected_step = store.create_leaf(vec![
        0b0000_0000_0000_0000,
        0b0000_0000_0000_0000,
        0b0000_0000_0000_0000,
        0b0000_0000_0000_0000,
        0b0000_0000_0000_0000,
        0b0000_0000_0000_0000,
        0b0000_0001_0000_0000,
        0b0000_0000_1000_0000,
        0b0000_0011_1000_0000,
        0b0000_0000_0000_0000,
        0b0000_0000_0000_0000,
        0b0000_0000_0000_0000,
        0b0000_0000_0000_0000,
        0b0000_0000_0000_0000,
        0b0000_0000_0000_0000,
        0b0000_0000_0000_0000,
    ]);

    assert_eq!(step, expected_step);
}

#[test]
fn step_at_max_exponent_is_jump() {
    let mut store = Store::new();
    store.set_step_log_2(3);

    let empty = store.create_empty(4);
    let glider = store.create_leaf(vec![
        0, 0, 0, 0, 0, 0, 0, 0, 0, 0, 0, 0, 0, 0b10, 0b01, 0b111,
    ]);
    let level_5 = store.create_interior(NodeTemplate {
        nw: glider,
        ne: empty,
        sw: empty,
        se: empty,
    });

    let step = level_5.step(&mut store);
    let jump = level_5.jump(&mut store);
    assert_eq!(step, jump);
}
