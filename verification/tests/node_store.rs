use smeagol::store::NodeId;
use smeagol::store::NodeTemplate;
use smeagol::store::Store;
use smeagol::BoundingBox;
use smeagol::Error;
use smeagol::Position;

fn filled_square(store: &mut Store, level: u8) -> NodeId {
    let mut filled = store.create_empty(level);
    let min = filled.min_coord(store);
    let max = filled.max_coord(store);
    for x in min..=max {
        for y in min..=max {
            let pos = Position { x, y };
            filled = filled.set_cell_alive(store, pos);
        }
    }
    filled
}

fn get_set_helper(level: u8) {
    let mut store = Store::new();
    let empty = store.create_empty(level);

    let min = empty.min_coord(&store);
    let max = empty.max_coord(&store);
    for x in min..=max {
        for y in min..=max {
            let pos = Position { x, y };
            let one_alive = empty.set_cell_alive(&mut store, pos);
            let also_one_alive = empty.set_cells_alive(&mut store, vec![pos]);
            assert_eq!(one_alive, also_one_alive);
            assert!(one_alive.get_cell(&store, pos).is_alive());
            assert_eq!(one_alive.get_alive_cells(&store), vec![pos]);
            assert_eq!(one_alive.bounding_box(&store), Some(BoundingBox::new(pos, pos)));

            assert!(one_alive.contains_alive_cells(&store, BoundingBox::new(pos, pos)));
            assert!(one_alive.contains_alive_cells(
                &store,
                BoundingBox::new(Position::new(min, min), pos)
            ));
            assert!(one_alive.contains_alive_cells(
                &store,
                BoundingBox::new(pos, Position::new(max, max))
            ));
            assert!(one_alive.contains_alive_cells(
                &store,
                BoundingBox::new(Position::new(x, min), Position::new(x, max))
            ));
            assert!(one_alive.contains_alive_cells(
                &store,
                BoundingBox::new(Position::new(min, y), Position::new(max, y))
            ));
        }
    }
}

#[test]
fn get_set_get_set() {
    get_set_helper(4);
    get_set_helper(5);
}

#[test]
fn cells_get_set() {
    get_set_helper(3);
}

#[test]
fn region_nw() {
    let mut store = Store::new();
    let empty = store.create_empty(4);
    let filled = filled_square(&mut store, 4);
    let node = store.create_interior(NodeTemplate { nw: filled, ne: empty, sw: empty, se: empty });
    assert_eq!(node.nw(&mut store), filled);
}

#[test]
fn region_ne() {
    let mut store = Store::new();
    let empty = store.create_empty(4);
    let filled = filled_square(&mut store, 4);
    let node = store.create_interior(NodeTemplate { nw: empty, ne: filled, sw: empty, se: empty });
    assert_eq!(node.ne(&mut store), filled);
}

#[test]
fn region_sw() {
    let mut store = Store::new();
    let empty = store.create_empty(4);
    let filled = filled_square(&mut store, 4);
    let node = store.create_interior(NodeTemplate { nw: empty, ne: empty, sw: filled, se: empty });
    assert_eq!(node.sw(&mut store), filled);
}

#[test]
fn region_se() {
    let mut store = Store::new();
    let empty = store.create_empty(4);
    let filled = filled_square(&mut store, 4);
    let node = store.create_interior(NodeTemplate { nw: empty, ne: empty, sw: empty, se: filled });
    assert_eq!(node.se(&mut store), filled);
}

#[test]
fn region_center_subnode() {
    let mut store = Store::new();
    let mut node = store.create_empty(5);
    for x in -8..8 {
        for y in -8..8 {
            let pos = Position { x, y };
            node = node.set_cell_alive(&mut store, pos);
        }
    }
    assert_eq!(node.center_subnode(&mut store), filled_square(&mut store, 4));

    let mut node = store.create_empty(6);
    for x in -16..16 {
        for y in -16..16 {
            let pos = Position { x, y };
            node = node.set_cell_alive(&mut store, pos);
        }
    }
    assert_eq!(node.center_subnode(&mut store), filled_square(&mut store, 5));
}

#[test]
fn region_west_subsubnode() {
    let mut store = Store::new();
    let mut node = store.create_empty(5);
    for x in -12..-4 {
        for y in -4..4 {
            let pos = Position { x, y };
            node = node.set_cell_alive(&mut store, pos);
        }
    }
    assert_eq!(node.west_subsubnode(&mut store), filled_square(&mut store, 3));

    let mut node = store.create_empty(6);
    for x in -24..-8 {
        for y in -8..8 {
            let pos = Position { x, y };
            node = node.set_cell_alive(&mut store, pos);
        }
    }
    assert_eq!(node.west_subsubnode(&mut store), filled_square(&mut store, 4));
}

#[test]
fn region_east_subsubnode() {
    let mut store = Store::new();
    let mut node = store.create_empty(5);
    for x in 4..12 {
        for y in -4..4 {
            let pos = Position { x, y };
            node = node.set_cell_alive(&mut store, pos);
        }
    }
    assert_eq!(node.east_subsubnode(&mut store), filled_square(&mut store, 3));

    let mut node = store.create_empty(6);
    for x in 8..24 {
        for y in -8..8 {
            let pos = Position { x, y };
            node = node.set_cell_alive(&mut store, pos);
        }
    }
    assert_eq!(node.east_subsubnode(&mut store), filled_square(&mut store, 4));
}

#[test]
fn region_north_subsubnode() {
    let mut store = Store::new();
    let mut node = store.create_empty(5);
    for x in -4..4 {
        for y in -12..-4 {
            let pos = Position { x, y };
            node = node.set_cell_alive(&mut store, pos);
        }
    }
    assert_eq!(node.north_subsubnode(&mut store), filled_square(&mut store, 3));

    let mut node = store.create_empty(6);
    for x in -8..8 {
        for y in -24..-8 {
            let pos = Position { x, y };
            node = node.set_cell_alive(&mut store, pos);
        }
    }
    assert_eq!(node.north_subsubnode(&mut store), filled_square(&mut store, 4));
}

#[test]
fn region_south_subsubnode() {
    let mut store = Store::new();
    let mut node = store.create_empty(5);
    for x in -4..4 {
        for y in 4..12 {
            let pos = Position { x, y };
            node = node.set_cell_alive(&mut store, pos);
        }
    }
    assert_eq!(node.south_subsubnode(&mut store), filled_square(&mut store, 3));

    let mut node = store.create_empty(6);
    for x in -8..8 {
        for y in 8..24 {
            let pos = Position { x, y };
            node = node.set_cell_alive(&mut store, pos);
        }
    }
    assert_eq!(node.south_subsubnode(&mut store), filled_square(&mut store, 4));
}

#[test]
fn expand() {
    let mut store = Store::new();
    let center = filled_square(&mut store, 5);
    assert_eq!(center.expand(&mut store).center_subnode(&mut store), center);
}

#[test]
fn canonical_ids() {
    let mut store = Store::new();
    let a = store.create_leaf(vec![0u16; 16]);
    let before = store.nodes.len();
    let b = store.create_leaf(vec![0u16; 16]);
    assert_eq!(a, b);
    // interning an already-stored board appends nothing
    assert_eq!(store.nodes.len(), before);
    let c = store.create_interior(NodeTemplate { nw: a, ne: a, sw: a, se: a });
    let d = store.create_interior(NodeTemplate { nw: b, ne: b, sw: b, se: b });
    assert_eq!(c, d);
    assert_eq!(c, store.create_empty(5));

    // setting a cell that is already alive hands back the same id
    let one = a.set_cell_alive(&mut store, Position::new(3, -2));
    let two = one.set_cell_alive(&mut store, Position::new(3, -2));
    assert_eq!(one, two);
}

#[test]
fn promotion_matches_leaf() {
    // a 16x16 all-alive node built directly and built from four all-alive
    // 8x8 leaves is one and the same canonical node
    let mut store = Store::new();
    let direct = store.create_leaf(vec![0xffffu16; 16]);
    let q = store.create_level_3(vec![0xffu8; 8]);
    let assembled = store.create_interior(NodeTemplate { nw: q, ne: q, sw: q, se: q });
    assert_eq!(direct, assembled);
    assert_eq!(direct.population(&store), 256);
    assert_eq!(direct, store.create_level_4(vec![0xffffu16; 16]));
}

#[test]
fn population_sums() {
    let mut store = Store::new();
    let empty = store.create_empty(4);
    let glider = store.create_leaf(vec![
        0, 0, 0, 0, 0, 0, 0, 0, 0, 0, 0, 0, 0, 0b10, 0b01, 0b111,
    ]);
    assert_eq!(glider.population(&store), 5);
    let node = store.create_interior(NodeTemplate { nw: glider, ne: glider, sw: empty, se: glider });
    assert_eq!(node.population(&store), 15);
}

#[test]
fn checked_constructors() {
    let mut store = Store::new();
    assert_eq!(store.try_create_empty(2), Err(Error::InvalidLevel));
    assert_eq!(store.try_create_empty(65), Err(Error::InvalidLevel));
    assert!(store.try_create_empty(4).is_ok());

    let l3 = store.create_empty(3);
    let l4 = store.create_empty(4);
    assert_eq!(
        store.try_create_interior(NodeTemplate { nw: l3, ne: l4, sw: l4, se: l4 }),
        Err(Error::ChildLevelMismatch)
    );
    let ok = store.try_create_interior(NodeTemplate { nw: l4, ne: l4, sw: l4, se: l4 });
    assert_eq!(ok, Ok(store.create_empty(5)));
}

#[test]
fn min_max_coords() {
    let mut store = Store::new();
    let n4 = store.create_empty(4);
    assert_eq!(n4.min_coord(&store), -8);
    assert_eq!(n4.max_coord(&store), 7);
    let n7 = store.create_empty(7);
    assert_eq!(n7.min_coord(&store), -64);
    assert_eq!(n7.max_coord(&store), 63);
}

#[test]
fn empty_jump_is_empty() {
    let mut store = Store::new();
    let e6 = store.create_empty(6);
    let jump = e6.jump(&mut store);
    assert_eq!(jump, store.create_empty(5));
    assert_eq!(jump.population(&store), 0);
    let step = e6.step(&mut store);
    assert_eq!(step, store.create_empty(5));
}
