use moros_game::usr::game::bullet::Bullet as FirstBullet;
use moros_game::usr::game::network::{
    broadcast_message, decode_message, encode_message, received_map, MessageType, ServerState,
    MAX_CHUNK_SIZE,
};
use moros_game::usr::game::tanks::bullet::Bullet;
use moros_game::usr::game::tanks::map::{Direction, TileMap};
use moros_game::usr::game::tanks::player::Player;
use moros_game::usr::game::tanks::state::{
    f64_bits_of_usize, push_le_u32, push_le_u64, read_le_u32, read_le_u64, GameState,
};
use moros_game::usr::game::tanks::userinput::UserInput;

fn sample_input() -> UserInput {
    UserInput {
        up: true,
        right: false,
        down: true,
        left: false,
        shooting: true,
        map_mouse_x: -5,
        map_mouse_y: 300,
    }
}

fn sample_player(id: usize) -> Player {
    Player {
        id,
        x: 12.5f64.to_bits(),
        y: 40.0f64.to_bits(),
        alive: true,
        time_of_death: 3.25f64.to_bits(),
        user_input: sample_input(),
        pointing_to: (7, 9),
        points: 4,
        ammo: 2,
        last_shot: 1.5f64.to_bits(),
        last_reload_ammo: 2.75f64.to_bits(),
    }
}

#[test]
fn le_helpers_round_trip() {
    let mut out = Vec::new();
    push_le_u32(&mut out, 0x1234_5678);
    push_le_u64(&mut out, 0x0102_0304_0506_0708);
    assert_eq!(out[0..4], [0x78, 0x56, 0x34, 0x12]);
    assert_eq!(out[4..12], [8, 7, 6, 5, 4, 3, 2, 1]);
    assert_eq!(read_le_u32(&out, 0), 0x1234_5678);
    assert_eq!(read_le_u64(&out, 4), 0x0102_0304_0506_0708);
}

#[test]
fn f64_bits_match_std_conversion() {
    for n in [0usize, 1, 2, 3, 7, 8, 20, 106, 226, 1000, 123_456_789, (1 << 52) + 1, (1 << 53) - 1] {
        assert_eq!(f64_bits_of_usize(n), (n as f64).to_bits(), "n = {}", n);
    }
}

#[test]
fn direction_byte_form() {
    let d = Direction { up: true, right: false, down: true, left: true };
    let bytes = d.serialize();
    assert_eq!(bytes, vec![0b1101]);
    assert_eq!(Direction::deserialize(&bytes), d);
    assert_eq!(
        Direction::deserialize(&[]),
        Direction { up: false, right: false, down: false, left: false }
    );
}

#[test]
fn user_input_byte_form() {
    let u = sample_input();
    let bytes = u.serialize();
    assert_eq!(bytes.len(), 9);
    assert_eq!(bytes[0], 0b10101);
    assert_eq!(bytes[1..5], (-5i32).to_le_bytes());
    assert_eq!(bytes[5..9], 300i32.to_le_bytes());
    assert_eq!(UserInput::deserialize(&bytes), u);
}

#[test]
fn user_input_short_data_is_idle() {
    let u = UserInput::deserialize(&[0xff; 8]);
    assert!(!u.up && !u.right && !u.down && !u.left && !u.shooting);
    assert_eq!((u.map_mouse_x, u.map_mouse_y), (0, 0));
}

#[test]
fn player_byte_form_round_trip() {
    let p = sample_player(42);
    let bytes = p.serialize();
    assert_eq!(bytes.len(), 70);
    assert_eq!(bytes[0..4], 42u32.to_le_bytes());
    assert_eq!(bytes[4..12], 12.5f64.to_le_bytes());
    assert_eq!(bytes[20], 1);
    assert_eq!(bytes[54..62], 1.5f64.to_le_bytes());
    let q = Player::deserialize(&bytes);
    assert_eq!(q.serialize(), bytes);
    assert_eq!(q.id, 42);
    assert_eq!(q.user_input, sample_input());
    assert_eq!(f64::from_bits(q.last_reload_ammo), 2.75);
}

#[test]
fn player_short_data_gives_blank_player() {
    for n in [0usize, 57, 58, 69] {
        let p = Player::deserialize(&vec![9u8; n]);
        assert_eq!(p.id, 0);
        assert!(!p.alive);
        assert_eq!((p.x, p.y, p.points, p.ammo), (0, 0, 0, 0));
        assert_eq!((p.time_of_death, p.last_shot, p.last_reload_ammo), (0, 0, 0));
    }
}

#[test]
fn player_clone_resets_reload_time() {
    let p = sample_player(3);
    let c = p.clone();
    assert_eq!(c.last_reload_ammo, 0);
    assert_eq!(c.last_shot, p.last_shot);
    assert_eq!(c.points, p.points);
}

#[test]
fn bullet_byte_form_round_trip() {
    let b = Bullet {
        x: 1.5f32.to_bits(),
        y: 2.0f32.to_bits(),
        pointing_towards_x: 100.0f32.to_bits(),
        pointing_towards_y: 50.25f32.to_bits(),
        already_traveled: 7.0f32.to_bits(),
        shot_by: 5,
    };
    let bytes = b.serialize();
    assert_eq!(bytes.len(), 24);
    assert_eq!(bytes[0..4], 1.5f32.to_le_bytes());
    assert_eq!(bytes[20..24], 5u32.to_le_bytes());
    assert_eq!(Bullet::deserialize(&bytes), b);
    assert_eq!(Bullet::deserialize(&bytes[..23]).shot_by, 0);
}

#[test]
fn map_byte_form_round_trip() {
    let mut m = TileMap::new(320, 200, 3, 2, 20);
    m.set_tile(1, 1, Direction { up: true, right: true, down: false, left: false });
    let bytes = m.serialize();
    assert_eq!(bytes.len(), 20 + 6);
    assert_eq!(bytes[0..4], 320u32.to_le_bytes());
    assert_eq!(bytes[16..20], 20u32.to_le_bytes());
    assert_eq!(bytes[20 + 4], 0b0011);
    assert!(moros_game::usr::game::tanks::map::is_valid_map_data(&bytes));
    let back = TileMap::deserialize(&bytes);
    assert_eq!(back.serialize(), bytes);
    assert!(!moros_game::usr::game::tanks::map::is_valid_map_data(&bytes[..25]));
}

#[test]
fn game_state_byte_form_round_trip() {
    let map = TileMap::new(320, 200, 2, 2, 20);
    let mut state = GameState::new(map);
    state.players.push(sample_player(2));
    state.players.push(sample_player(3));
    state.bullets.push(Bullet {
        x: 4.0f32.to_bits(),
        y: 5.0f32.to_bits(),
        pointing_towards_x: 6.0f32.to_bits(),
        pointing_towards_y: 7.0f32.to_bits(),
        already_traveled: 0,
        shot_by: 2,
    });
    let bytes = state.serialize();
    assert_eq!(bytes.len(), 24 + 4 + 140 + 4 + 24);
    let back = GameState::deserialize(&bytes).expect("whole state");
    assert_eq!(back.players.len(), 2);
    assert_eq!(back.players[1].id, 3);
    assert_eq!(back.bullets, state.bullets);
    assert_eq!(back.serialize(), bytes);
    assert!(GameState::deserialize(&bytes[..bytes.len() - 1]).is_none());
    assert!(GameState::deserialize(&bytes[..10]).is_none());
}

#[test]
fn message_type_codes() {
    let all = [
        MessageType::Connect,
        MessageType::MapRequest,
        MessageType::MapData,
        MessageType::PlayerInput,
        MessageType::GameState,
        MessageType::GameStateUpdate,
        MessageType::Disconnect,
    ];
    for (i, t) in all.iter().enumerate() {
        assert_eq!(t.to_u8() as usize, i);
        assert_eq!(MessageType::from_u8(i as u8), Some(*t));
    }
    assert_eq!(MessageType::from_u8(7), None);
    assert_eq!(MessageType::from_u8(255), None);
}

#[test]
fn message_framing_round_trip() {
    let m = encode_message(MessageType::PlayerInput, &[1, 2, 3]);
    assert_eq!(m, vec![3, 1, 2, 3]);
    assert_eq!(decode_message(&m), Some((MessageType::PlayerInput, vec![1, 2, 3])));
    assert_eq!(decode_message(&[]), None);
    assert_eq!(decode_message(&[9, 1]), None);
    assert_eq!(decode_message(&[6]), Some((MessageType::Disconnect, vec![])));
}

#[test]
fn broadcast_keeps_only_first_chunk() {
    let small = vec![7u8; 10];
    assert_eq!(broadcast_message(&small).len(), 11);
    let big: Vec<u8> = (0..3000u32).map(|i| i as u8).collect();
    let m = broadcast_message(&big);
    assert_eq!(m.len(), MAX_CHUNK_SIZE + 1);
    assert_eq!(m[0], 5);
    assert_eq!(m[1..], big[..MAX_CHUNK_SIZE]);
}

#[test]
fn server_lists_each_client_once_and_answers_map_requests() {
    let mut s = ServerState::new();
    let a = (0xC0A8_0002u32, 1234u16);
    let b = (0xC0A8_0003u32, 1234u16);
    assert_eq!(s.handle_server_message(MessageType::MapRequest, a), None);
    assert_eq!(s.handle_server_message(MessageType::Connect, a), None);
    s.handle_server_message(MessageType::Connect, a);
    s.handle_server_message(MessageType::Connect, b);
    assert_eq!(s.connected_clients, vec![a, b]);
    s.set_map(vec![1, 2]);
    assert_eq!(s.handle_server_message(MessageType::MapRequest, b), Some(vec![2, 1, 2]));
    assert_eq!(s.handle_server_message(MessageType::PlayerInput, b), None);
}

#[test]
fn first_non_empty_map_is_received() {
    let msgs = vec![
        (MessageType::GameStateUpdate, vec![1]),
        (MessageType::MapData, vec![]),
        (MessageType::MapData, vec![4, 5]),
        (MessageType::MapData, vec![6]),
    ];
    assert_eq!(received_map(&msgs), Some(vec![4, 5]));
    assert_eq!(received_map(&msgs[..2].to_vec()), None);
}

#[test]
fn first_version_bullet_byte_form() {
    let b = FirstBullet {
        x: 12.5f64.to_bits(),
        y: (-3.0f64).to_bits(),
        pointing_towards_x: 100.0f64.to_bits(),
        pointing_towards_y: 7.25f64.to_bits(),
        already_traveled: 0.5f64.to_bits(),
        current_segment_start: (1, 2),
        path_queue: vec![(3, 4)],
    };
    let bytes = b.serialize();
    assert_eq!(bytes.len(), 40);
    assert_eq!(&bytes[0..8], &12.5f64.to_le_bytes());
    let c = FirstBullet::deserialize(&bytes);
    assert_eq!(f64::from_bits(c.x), 12.5);
    assert_eq!(f64::from_bits(c.y), -3.0);
    assert_eq!(f64::from_bits(c.pointing_towards_x), 100.0);
    assert_eq!(f64::from_bits(c.pointing_towards_y), 7.25);
    assert_eq!(f64::from_bits(c.already_traveled), 0.5);
    assert_eq!(c.current_segment_start, (c.x, c.y));
    assert!(c.path_queue.is_empty());
    let z = FirstBullet::deserialize(&bytes[..39]);
    assert_eq!((z.x, z.y, z.already_traveled, z.current_segment_start), (0, 0, 0, (0, 0)));
}
