use moros_game::usr::client::last_digit;
use moros_game::usr::game::{Framebuffer, Rectangle, HEIGHT, WIDTH};

fn args(list: &[&str]) -> Vec<Vec<u8>> {
    list.iter().map(|a| a.as_bytes().to_vec()).collect()
}

#[test]
fn rectangle_moves_by_keys_within_the_screen() {
    let mut r = Rectangle::new(140, 80, 10, 10, 3);
    r.move_left();
    r.move_up();
    assert_eq!((r.x, r.y), (135, 75));
    r.move_right();
    r.move_down();
    assert_eq!((r.x, r.y), (140, 80));
    let mut edge = Rectangle::new(0, 0, 10, 10, 3);
    edge.move_left();
    edge.move_up();
    assert_eq!((edge.x, edge.y), (0, 0));
    let mut right = Rectangle::new(310, 190, 10, 10, 3);
    right.move_right();
    right.move_down();
    assert_eq!((right.x, right.y), (310, 190));
    let mut near = Rectangle::new(305, 185, 10, 10, 3);
    near.move_right();
    near.move_down();
    assert_eq!((near.x, near.y), (310, 190));
}

#[test]
fn rectangle_step_left_wraps_below_five() {
    let mut r = Rectangle::new(3, 2, 10, 10, 3);
    r.move_left();
    r.move_up();
    assert_eq!(r.x, usize::MAX - 1);
    assert_eq!(r.y, usize::MAX - 2);
}

#[test]
fn rectangle_follows_the_mouse_and_stays_on_screen() {
    let mut r = Rectangle::new(140, 80, 10, 10, 3);
    r.add_pos(-40, 20);
    assert_eq!((r.x, r.y), (100, 100));
    r.add_pos(-128, -128);
    assert_eq!((r.x, r.y), (0, 0));
    let mut far = Rectangle::new(300, 190, 10, 10, 3);
    far.add_pos(20, 10);
    assert_eq!((far.x, far.y), (320, 200));
    far.add_pos(1, 1);
    assert_eq!((far.x, far.y), (WIDTH - 1, HEIGHT - 1));
    far.set_color(4);
    assert_eq!(far.color, 4);
    assert_eq!(far.width, 10);
}

#[test]
fn demo_buffer_draws_rectangles_and_pixels() {
    let mut fb = Framebuffer::new();
    assert_eq!(fb.buffer.len(), WIDTH * HEIGHT);
    assert!(fb.buffer.iter().all(|&b| b == 0));
    fb.set_pixel(5, 7, 9);
    assert_eq!(fb.buffer[7 * WIDTH + 5], 9);
    fb.set_pixel(WIDTH, 0, 9);
    fb.set_pixel(0, HEIGHT, 9);
    assert_eq!(fb.buffer.iter().filter(|&&b| b != 0).count(), 1);
    let r = Rectangle::new(318, 198, 5, 4, 2);
    fb.draw_rectangle(&r);
    let painted: Vec<usize> = (0..WIDTH * HEIGHT).filter(|&i| fb.buffer[i] == 2).collect();
    assert_eq!(painted, vec![198 * WIDTH + 318, 198 * WIDTH + 319, 199 * WIDTH + 318, 199 * WIDTH + 319]);
    let wrapping = Rectangle::new(usize::MAX, 0, 2, 1, 6);
    fb.draw_rectangle(&wrapping);
    assert_eq!(fb.buffer[0], 6);
    assert_eq!(fb.buffer[1], 0);
    fb.clear();
    assert!(fb.buffer.iter().all(|&b| b == 0));
}

#[test]
fn client_address_digit() {
    assert_eq!(last_digit(&args(&["client"])), Some(2));
    assert_eq!(last_digit(&args(&["client", "7"])), Some(7));
    assert_eq!(last_digit(&args(&["client", "255", "x"])), Some(255));
    assert_eq!(last_digit(&args(&["client", "1"])), None);
    assert_eq!(last_digit(&args(&["client", "256"])), None);
    assert_eq!(last_digit(&args(&["client", "abc"])), None);
}
