use moros_game::usr::game::map::{auto_set_walls, connect_areas, ensure_accessible_areas};
use moros_game::usr::game::tanks::map::{Direction, TileMap};

fn closed() -> Direction {
    Direction { up: true, right: true, down: true, left: true }
}

/// A map whose every tile is a closed room.
fn rooms(tx: usize, ty: usize) -> TileMap {
    let mut m = TileMap::new(tx * 20, ty * 20, tx, ty, 20);
    for y in 0..ty {
        for x in 0..tx {
            m.set_tile(x, y, closed());
        }
    }
    m
}

#[test]
fn connecting_carves_columns_then_rows() {
    let mut m = rooms(3, 3);
    connect_areas(&mut m, 0, 0, 2, 2);
    // The walk goes (0,0) -> (1,0) -> (1,1) -> (2,1) -> (2,2).
    assert!(!m.tiles[0].right && !m.tiles[1].left);
    assert!(!m.tiles[1].down && !m.tiles[4].up);
    assert!(!m.tiles[4].right && !m.tiles[5].left);
    assert!(!m.tiles[5].down && !m.tiles[8].up);
    // Walls off the walk stay.
    assert!(m.tiles[0].down && m.tiles[3].up);
    assert!(m.tiles[6].up && m.tiles[6].right);
    // The border stays closed.
    assert!(m.tiles[0].up && m.tiles[0].left && m.tiles[8].right && m.tiles[8].down);
    assert_eq!(m.find_distinct_areas().len(), 5);
}

#[test]
fn connecting_backwards_and_to_itself() {
    let mut m = rooms(3, 2);
    connect_areas(&mut m, 2, 1, 0, 0);
    // (2,1) -> (1,0) is a column step then a row step: (2,1) -> (1,1) -> (1,0),
    // then (1,0) -> (0,0).
    assert!(!m.tiles[5].left && !m.tiles[4].right);
    assert!(!m.tiles[4].up && !m.tiles[1].down);
    assert!(!m.tiles[1].left && !m.tiles[0].right);
    let before: Vec<(bool, bool, bool, bool)> = m.tiles.iter().map(|d| (d.up, d.right, d.down, d.left)).collect();
    connect_areas(&mut m, 1, 1, 1, 1);
    let after: Vec<(bool, bool, bool, bool)> = m.tiles.iter().map(|d| (d.up, d.right, d.down, d.left)).collect();
    assert_eq!(before, after);
}

#[test]
fn closed_rooms_are_all_joined() {
    let mut m = rooms(4, 3);
    assert_eq!(m.find_distinct_areas().len(), 12);
    ensure_accessible_areas(&mut m);
    assert_eq!(m.find_distinct_areas().len(), 1);
    for x in 0..4 {
        assert!(m.tiles[x].up && m.tiles[8 + x].down);
    }
    for y in 0..3 {
        assert!(m.tiles[y * 4].left && m.tiles[y * 4 + 3].right);
    }
}

#[test]
fn joining_one_area_changes_nothing() {
    let mut m = TileMap::new(60, 40, 3, 2, 20);
    m.set_outer_walls();
    ensure_accessible_areas(&mut m);
    let walls: Vec<(bool, bool, bool, bool)> = m.tiles.iter().map(|d| (d.up, d.right, d.down, d.left)).collect();
    let mut expected = TileMap::new(60, 40, 3, 2, 20);
    expected.set_outer_walls();
    let want: Vec<(bool, bool, bool, bool)> =
        expected.tiles.iter().map(|d| (d.up, d.right, d.down, d.left)).collect();
    assert_eq!(walls, want);
}

#[test]
fn joining_goes_from_the_largest_area() {
    // Left: a 2x1 open area; right column: two closed rooms.
    let mut m = TileMap::new(60, 20, 3, 1, 20);
    m.set_outer_walls();
    m.set_tile(1, 0, Direction { up: true, right: true, down: true, left: false });
    m.set_tile(2, 0, closed());
    assert_eq!(m.find_distinct_areas().len(), 2);
    ensure_accessible_areas(&mut m);
    assert_eq!(m.find_distinct_areas().len(), 1);
    // The path from (0,0) to (2,0) opens both walls on the way.
    assert!(!m.tiles[1].right && !m.tiles[2].left);
}

#[test]
fn first_generator_makes_closed_connected_maps() {
    let mut s: u64 = 7;
    for _ in 0..10 {
        let mut draws = Vec::new();
        for _ in 0..(12 * 10) {
            s = s.wrapping_mul(6364136223846793005).wrapping_add(1442695040888963407);
            let a = (s >> 33) % 10 < 5;
            s = s.wrapping_mul(6364136223846793005).wrapping_add(1442695040888963407);
            let b = (s >> 33) % 10 < 5;
            draws.push((a, b));
        }
        let mut m = TileMap::new(240, 200, 12, 10, 20);
        auto_set_walls(&mut m, &draws);
        assert_eq!(m.find_distinct_areas().len(), 1);
        for x in 0..12 {
            assert!(m.tiles[x].up && m.tiles[9 * 12 + x].down);
        }
        for y in 0..10 {
            assert!(m.tiles[y * 12].left && m.tiles[y * 12 + 11].right);
        }
        for (i, d) in m.tiles.iter().enumerate() {
            let (x, y) = (i % 12, i / 12);
            if y > 0 && d.up {
                assert!(draws[i].0);
            }
            if x > 0 && d.left {
                assert!(draws[i].1);
            }
            if x < 11 {
                assert!(!d.right);
            }
            if y < 9 {
                assert!(!d.down);
            }
        }
    }
}
