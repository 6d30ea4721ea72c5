use moros_game::sys::mouse::MouseEvent;
use moros_game::usr::game::main::{handle_network_message, parse_args, parse_u8, Command};
use moros_game::usr::game::network::MessageType;
use moros_game::usr::game::tanks::bullet::Bullet;
use moros_game::usr::game::tanks::game::{
    find_player, is_drawable_map_data, map_is_drawable, Game, TILES_X, TILES_Y, TILE_SIZE,
};
use moros_game::usr::game::tanks::map::{Direction, TileMap};
use moros_game::usr::game::tanks::player::{is_pos_colliding, line_intersects_line};
use moros_game::usr::game::tanks::state::MAX_AMMO;
use moros_game::usr::game::tanks::userinput::UserInput;

/// A deterministic pseudo-random source for the wall draws.
fn draws(n: usize, seed: u64) -> Vec<(bool, bool)> {
    let mut s = seed;
    let mut out = Vec::new();
    for _ in 0..n {
        s = s.wrapping_mul(6364136223846793005).wrapping_add(1442695040888963407);
        let a = (s >> 33) % 10 < 4;
        s = s.wrapping_mul(6364136223846793005).wrapping_add(1442695040888963407);
        let b = (s >> 33) % 10 < 4;
        out.push((a, b));
    }
    out
}

fn new_game() -> Game {
    Game::new(320, 200, &draws(TILES_X * TILES_Y, 1))
}

#[test]
fn wall_coordinates_of_each_side() {
    let m = TileMap::new(320, 200, 12, 10, 20);
    assert_eq!(m.wall_coords(2, 3, 0), (40, 60, 60, 60));
    assert_eq!(m.wall_coords(2, 3, 1), (59, 60, 59, 80));
    assert_eq!(m.wall_coords(2, 3, 2), (40, 79, 60, 79));
    assert_eq!(m.wall_coords(2, 3, 3), (40, 60, 40, 80));
}

#[test]
fn random_position_is_centre_of_tile() {
    let m = TileMap::new(320, 200, 12, 10, 20);
    assert_eq!(m.random_pos(0, 0), (6, 6));
    assert_eq!(m.random_pos(13, 25), (26, 106));
}

#[test]
fn outer_walls_and_bitmap() {
    let mut m = TileMap::new(60, 40, 3, 2, 20);
    m.set_outer_walls();
    assert!(m.tiles[0].up && m.tiles[0].left && !m.tiles[0].right && !m.tiles[0].down);
    assert!(m.tiles[5].down && m.tiles[5].right);
    let bitmap = vec![[true, false, false, false]; 6];
    m.set_walls_bitmap(&bitmap);
    assert!(m.tiles.iter().all(|d| d.up && !d.right && !d.down && !d.left));
    m.clear_walls();
    assert!(m.tiles.iter().all(|d| !d.up && !d.right && !d.down && !d.left));
    m.set_tile(7, 0, Direction { up: true, right: true, down: true, left: true });
    assert!(m.tiles.iter().all(|d| !d.up));
}

#[test]
fn generated_maps_are_connected_and_closed() {
    for seed in 0..20 {
        let mut m = TileMap::new(320, 200, TILES_X, TILES_Y, TILE_SIZE);
        m.auto_set_walls(&draws(TILES_X * TILES_Y, seed));
        assert_eq!(m.find_distinct_areas().len(), 1, "seed {}", seed);
        for x in 0..TILES_X {
            assert!(m.tiles[x].up);
            assert!(m.tiles[(TILES_Y - 1) * TILES_X + x].down);
        }
        for y in 0..TILES_Y {
            assert!(m.tiles[y * TILES_X].left);
            assert!(m.tiles[y * TILES_X + TILES_X - 1].right);
        }
    }
}

#[test]
fn closed_rooms_are_separate_areas() {
    let mut m = TileMap::new(40, 20, 2, 1, 20);
    m.set_tile(0, 0, Direction { up: true, right: true, down: true, left: true });
    m.set_tile(1, 0, Direction { up: true, right: true, down: true, left: true });
    let areas = m.find_distinct_areas();
    assert_eq!(areas, vec![vec![(0, 0)], vec![(1, 0)]]);
}

#[test]
fn segments_meet_when_they_share_a_point() {
    assert!(line_intersects_line(0, 0, 10, 10, 0, 10, 10, 0));
    assert!(line_intersects_line(0, 0, 2, 2, 0, 2, 2, 0));
    assert!(!line_intersects_line(0, 0, 10, 0, 0, 5, 10, 5));
    assert!(line_intersects_line(0, 0, 10, 0, 10, -5, 10, 5));
    assert!(!line_intersects_line(0, 0, 10, 0, 11, -5, 11, 5));
    // Collinear segments meet when they overlap or touch.
    assert!(line_intersects_line(0, 0, 10, 0, 3, 0, 8, 0));
    assert!(line_intersects_line(0, 0, 2, 0, 1, 0, 3, 0));
    assert!(line_intersects_line(0, 0, 2, 0, 2, 0, 5, 0));
    assert!(!line_intersects_line(0, 0, 2, 0, 3, 0, 5, 0));
    assert!(line_intersects_line(0, 7, 0, 1, 0, 3, 0, 9));
    // Parallel segments on different lines do not.
    assert!(!line_intersects_line(0, 0, 2, 2, 1, 0, 3, 2));
    // A point meets a segment through it.
    assert!(line_intersects_line(1, 1, 1, 1, 0, 0, 2, 2));
    assert!(!line_intersects_line(1, 2, 1, 2, 0, 0, 2, 2));
}

#[test]
fn player_square_collides_with_near_wall() {
    let mut m = TileMap::new(60, 60, 3, 3, 20);
    assert!(!is_pos_colliding(26, 26, &m));
    m.set_tile(1, 1, Direction { up: false, right: false, down: false, left: true });
    assert!(is_pos_colliding(16, 26, &m));
    assert!(!is_pos_colliding(26, 26, &m));
}

#[test]
fn new_game_has_connected_map_and_no_players() {
    let g = new_game();
    assert_eq!(g.game_state.players.len(), 0);
    assert_eq!(g.game_state.map.tiles_x, 12);
    assert_eq!(g.game_state.map.find_distinct_areas().len(), 1);
    assert!(map_is_drawable(&g.game_state.map));
}

#[test]
fn players_join_once_and_leave() {
    let mut g = new_game();
    g.add_player(2, 3, 4);
    g.add_player(5, 0, 0);
    g.add_player(2, 9, 9);
    assert_eq!(g.game_state.players.len(), 2);
    let p = &g.game_state.players[0];
    assert_eq!(f64::from_bits(p.x), 66.0);
    assert_eq!(f64::from_bits(p.y), 86.0);
    assert_eq!(p.ammo, MAX_AMMO);
    assert!(p.alive);
    assert_eq!(find_player(&g.game_state.players, 5), Some(1));
    g.set_current_player(5);
    assert_eq!(g.game_state.current_player_index, 1);
    g.set_current_player(77);
    assert_eq!(g.game_state.current_player_index, 1);
    g.remove_player(2);
    assert_eq!(g.game_state.players.len(), 1);
    assert_eq!(g.game_state.players[0].id, 5);
    g.remove_player(2);
    assert_eq!(g.game_state.players.len(), 1);
}

#[test]
fn input_from_io_and_network() {
    let mut g = new_game();
    g.add_player(2, 0, 0);
    let events = [
        MouseEvent { x_movement: 10, y_movement: 5, buttons: 0 },
        MouseEvent { x_movement: -100, y_movement: 3, buttons: 1 },
    ];
    g.update_user_input(2, (true, false, false, true), &events, 320, 200);
    let u = g.game_state.players[0].user_input;
    assert!(u.up && u.right && !u.down && !u.left && u.shooting);
    assert_eq!((u.map_mouse_x, u.map_mouse_y), (0, 8));
    let bytes = g.serialize_user_input(2);
    assert_eq!(bytes, u.serialize());
    assert!(g.serialize_user_input(3).is_empty());
    let mut other = new_game();
    other.add_player(2, 0, 0);
    other.deserialize_user_input(2, &bytes);
    assert_eq!(other.game_state.players[0].user_input, u);
}

#[test]
fn shooting_spends_ammo_and_reloading_refills() {
    let mut g = new_game();
    g.add_player(2, 0, 0);
    g.add_player(3, 1, 1);
    g.game_state.players[0].user_input.shooting = true;
    g.game_state.players[1].ammo = 1;
    let now = 10.0f64.to_bits();
    let fired = g.handle_player_shooting(&[true, false], &[false, true], now);
    assert_eq!(fired, vec![0]);
    assert_eq!(g.game_state.players[0].ammo, MAX_AMMO - 1);
    assert_eq!(g.game_state.players[0].last_shot, now);
    assert_eq!(g.game_state.players[1].ammo, 2);
    assert_eq!(g.game_state.players[1].last_reload_ammo, now);
    let fired = g.handle_player_shooting(&[false, true], &[true, false], now);
    assert!(fired.is_empty());
    assert_eq!(g.game_state.players[0].ammo, MAX_AMMO - 1);
    assert_eq!(g.game_state.players[1].ammo, 2);
}

fn bullet(shot_by: usize) -> Bullet {
    Bullet { x: 0, y: 0, pointing_towards_x: 0, pointing_towards_y: 0, already_traveled: 0, shot_by }
}

#[test]
fn hits_kill_award_and_remove_bullets() {
    let mut g = new_game();
    g.add_player(2, 0, 0);
    g.add_player(3, 1, 1);
    g.game_state.bullets = vec![bullet(2), bullet(3), bullet(2), bullet(3)];
    let inside = vec![
        vec![true, true],
        vec![false, false],
        vec![false, true],
        vec![true, true],
    ];
    let now = 4.0f64.to_bits();
    let hits = g.handle_player_bullet_collisions(&inside, now);
    assert_eq!(hits, vec![true, false, false, true]);
    let p2 = &g.game_state.players[0];
    let p3 = &g.game_state.players[1];
    assert!(!p2.alive && !p3.alive);
    assert_eq!(p2.time_of_death, now);
    assert_eq!(p2.points, 1);
    assert_eq!(p3.points, 1);
    assert_eq!(g.game_state.bullets, vec![bullet(3), bullet(2)]);
}

#[test]
fn dead_players_respawn_when_due() {
    let mut g = new_game();
    g.add_player(2, 0, 0);
    g.add_player(3, 0, 0);
    g.game_state.players[0].alive = false;
    g.game_state.players[0].ammo = 0;
    g.game_state.players[1].alive = false;
    g.handle_player_respawning(&[true, false], &[(1, 2), (0, 0)]);
    let p = &g.game_state.players[0];
    assert!(p.alive);
    assert_eq!(p.ammo, 5);
    assert_eq!(f64::from_bits(p.x), 26.0);
    assert_eq!(f64::from_bits(p.y), 46.0);
    assert!(!g.game_state.players[1].alive);
}

#[test]
fn state_and_map_travel_between_games() {
    let mut server = new_game();
    server.add_player(2, 3, 3);
    server.add_player(4, 5, 6);
    let mut client = Game::new(320, 200, &draws(TILES_X * TILES_Y, 99));
    client.set_current_player(0);
    let map = server.serialize_map();
    assert!(is_drawable_map_data(&map));
    client.deserialize_map(&map);
    assert_eq!(client.serialize_map(), map);
    let state = server.serialize_state();
    assert!(client.deserialize_state(&state));
    assert_eq!(client.serialize_state(), state);
    assert!(!client.deserialize_state(&state[..state.len() - 1]));
    assert_eq!(client.serialize_state(), state);
}

#[test]
fn new_random_map_replaces_map_only() {
    let mut g = new_game();
    g.add_player(2, 0, 0);
    g.set_new_random_map(320, 200, &draws(TILES_X * TILES_Y, 7));
    assert_eq!(g.game_state.players.len(), 1);
    assert_eq!(g.game_state.map.find_distinct_areas().len(), 1);
}

#[test]
fn network_messages_change_the_game() {
    let mut g = new_game();
    handle_network_message(&mut g, MessageType::Connect, &[], Some(7), 0, 0);
    handle_network_message(&mut g, MessageType::Connect, &[], Some(7), 1, 1);
    assert_eq!(g.game_state.players.len(), 1);
    let input = moros_game::usr::game::tanks::userinput::UserInput {
        up: false,
        right: true,
        down: false,
        left: false,
        shooting: false,
        map_mouse_x: 1,
        map_mouse_y: 2,
    };
    handle_network_message(&mut g, MessageType::PlayerInput, &input.serialize(), Some(7), 0, 0);
    assert_eq!(g.game_state.players[0].user_input, input);
    handle_network_message(&mut g, MessageType::Disconnect, &[], Some(7), 0, 0);
    assert!(g.game_state.players.is_empty());
}

#[test]
fn small_numbers_parse_like_std() {
    for s in ["0", "2", "+7", "255", "256", "", "+", "-1", "1a", "007", "99999"] {
        assert_eq!(parse_u8(s.as_bytes()), s.parse::<u8>().ok(), "{:?}", s);
    }
}

fn args(list: &[&str]) -> Vec<Vec<u8>> {
    list.iter().map(|a| a.as_bytes().to_vec()).collect()
}

#[test]
fn command_line_modes() {
    assert_eq!(parse_args(&args(&["-s", "--help"])), Command::Help);
    assert_eq!(parse_args(&args(&["--mapdemo", "-s"])), Command::MapDemo);
    assert_eq!(parse_args(&args(&["-s"])), Command::Server);
    assert_eq!(parse_args(&args(&["-ip=3"])), Command::Client(3));
    assert_eq!(parse_args(&args(&["-ip=1"])), Command::InvalidIpDigit);
    assert_eq!(parse_args(&args(&["-s", "-ip=300"])), Command::InvalidIpDigit);
    assert_eq!(parse_args(&args(&["--server", "-ip=4"])), Command::Server);
    assert_eq!(parse_args(&args(&[])), Command::NoMode);
}

#[test]
fn counts_spawn_positions_and_direct_setters() {
    let mut g = new_game();
    assert_eq!(g.get_player_count(), 0);
    assert_eq!(g.get_bullet_count(), 0);
    g.add_player(2, 0, 0);
    g.add_player(3, 1, 1);
    assert_eq!(g.get_player_count(), 2);
    // Tile (3, 4) of 20-pixel tiles, centred for an 8-pixel player.
    assert_eq!(g.get_random_spawn_position(3, 4), (66, 86));
    assert_eq!(g.get_random_spawn_position(15, 14), (66, 86));
    let input = moros_game::usr::game::tanks::userinput::UserInput {
        up: true,
        right: false,
        down: false,
        left: true,
        shooting: true,
        map_mouse_x: 123,
        map_mouse_y: -4,
    };
    g.set_user_input(3, input);
    assert_eq!(g.game_state.players[1].user_input, input);
    assert!(!g.game_state.players[0].user_input.up);
    g.set_user_input(9, input);
    assert!(!g.game_state.players[0].user_input.up);
    let mut m = TileMap::new(320, 200, TILES_X, TILES_Y, TILE_SIZE);
    m.set_outer_walls();
    g.set_and_draw_map(m.clone());
    assert_eq!(g.serialize_map(), m.serialize());
    assert_eq!(g.get_player_count(), 2);
}

#[test]
fn a_map_without_walls_is_applied_whatever_its_tile_size() {
    let mut g = new_game();
    let big = TileMap::new(40, 40, 0xFFFF_FFFF, 0, 0xFFFF_FFFF);
    assert!(map_is_drawable(&big));
    let data = big.serialize();
    assert!(is_drawable_map_data(&data));
    handle_network_message(&mut g, MessageType::MapData, &data, Some(2), 0, 0);
    assert_eq!(g.serialize_map(), data);
    assert_eq!(g.game_state.map.tiles_x, 0xFFFF_FFFF);
    assert_eq!(g.game_state.map.tile_size, 0xFFFF_FFFF);
}

#[test]
fn a_spawned_player_touches_no_wall() {
    for ts in [10usize, 11, 20] {
        let mut m = TileMap::new(4 * ts, 3 * ts, 4, 3, ts);
        let all = Direction { up: true, right: true, down: true, left: true };
        for y in 0..3 {
            for x in 0..4 {
                m.set_tile(x, y, all);
            }
        }
        for r in 0..12 {
            let (x, y) = m.random_pos(r, r / 4);
            assert!(!is_pos_colliding(x as isize, y as isize, &m), "ts {} r {}", ts, r);
        }
    }
}

#[test]
fn collinear_box_edge_on_a_wall_collides() {
    let mut m = TileMap::new(60, 60, 3, 3, 20);
    m.set_tile(1, 1, Direction { up: true, right: false, down: false, left: false });
    // The square's top side lies on the wall line y = 20 of tile (1, 1).
    assert!(is_pos_colliding(26, 20, &m));
    assert!(!is_pos_colliding(26, 21, &m));
}

#[test]
fn a_step_joins_two_closed_rooms() {
    let mut m = TileMap::new(40, 20, 2, 1, 20);
    let closed = Direction { up: true, right: true, down: true, left: true };
    m.set_tile(0, 0, closed);
    m.set_tile(1, 0, closed);
    let areas = m.find_distinct_areas();
    assert_eq!(areas.len(), 2);
    let removed = m.connect_areas_step(&areas);
    assert_eq!(removed, vec![(0, 0, 1)]);
    assert_eq!(m.find_distinct_areas().len(), 1);
    assert!(m.tiles[0].up && m.tiles[0].left && m.tiles[1].right && m.tiles[1].down);
}

fn walls(up: bool, right: bool, down: bool, left: bool) -> Direction {
    Direction { up, right, down, left }
}

#[test]
fn generation_opens_the_first_exit_of_each_area() {
    // Tile (0, 0) is closed off by the drawn left wall of (1, 0) and the
    // drawn top wall of (0, 1); its first exit, trying up, right, down,
    // left, is to the right.
    let mut m = TileMap::new(40, 40, 2, 2, 20);
    m.auto_set_walls(&[(false, false), (false, true), (true, false), (false, false)]);
    assert_eq!(m.tiles[0], walls(true, false, false, true));
    assert_eq!(m.tiles[1], walls(true, true, false, false));
    assert_eq!(m.tiles[2], walls(true, false, true, true));
    assert_eq!(m.tiles[3], walls(false, true, true, false));
}

#[test]
fn areas_are_listed_in_search_order() {
    let mut m = TileMap::new(40, 40, 2, 2, 20);
    m.set_outer_walls();
    m.set_tile(1, 0, walls(true, true, false, true));
    m.set_tile(0, 1, walls(true, false, true, true));
    let areas = m.find_distinct_areas();
    assert_eq!(areas, vec![vec![(0, 0)], vec![(1, 0), (1, 1), (0, 1)]]);
}

#[test]
fn a_step_reports_the_first_exit_of_every_area() {
    let mut m = TileMap::new(40, 40, 2, 2, 20);
    m.set_outer_walls();
    m.set_tile(1, 0, walls(true, true, false, true));
    m.set_tile(0, 1, walls(true, false, true, true));
    let areas = m.find_distinct_areas();
    let removed = m.connect_areas_step(&areas);
    // Area 0 opens to the right of (0, 0); area 1, on the walls as area 0
    // left them, has no wall left towards area 0 but the top of (0, 1).
    assert_eq!(removed, vec![(0, 0, 1), (0, 1, 0)]);
    assert!(!m.tiles[1].left && !m.tiles[0].right);
    assert!(!m.tiles[2].up);
}

fn input_at(x: isize, y: isize) -> UserInput {
    UserInput { up: false, right: false, down: false, left: false, shooting: false, map_mouse_x: x, map_mouse_y: y }
}

#[test]
fn mouse_moves_that_would_overflow_are_caught_before_the_update() {
    let step = [MouseEvent { x_movement: 1, y_movement: 0, buttons: 0 }];
    assert!(input_at(5, 5).mouse_fits(&step, 320, 200));
    assert!(!input_at(isize::MAX, 5).mouse_fits(&step, 320, 200));
    // An empty area cannot take a position that needs clamping from above.
    assert!(!input_at(5, 5).mouse_fits(&step, 0, 200));
    let back = [MouseEvent { x_movement: -10, y_movement: 0, buttons: 0 }];
    assert!(input_at(5, 5).mouse_fits(&back, 0, 200));
}

#[test]
fn an_area_wider_than_isize_clamps_as_the_casts_wrap() {
    let step = [MouseEvent { x_movement: 3, y_movement: 0, buttons: 0 }];
    let mut u = input_at(5, 5);
    assert!(u.mouse_fits(&step, usize::MAX, 200));
    u.update_from_io((false, false, false, false), &step, usize::MAX, 200);
    assert_eq!(u.map_mouse_x, -2);
    assert_eq!(u.map_mouse_y, 5);
}
