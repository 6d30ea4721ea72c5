use moros_game::sys::mouse::{Mouse, MouseEvent};
use moros_game::sys::vga::framebuffer::{Font, Framebuffer};
use moros_game::sys::vga::palette::Palette;
use moros_game::usr::game::tanks::game::{map_demo_round, Game, TILES_X, TILES_Y};
use moros_game::usr::game::tanks::map::TileMap;
use moros_game::usr::game::tanks::renderer::{decimal_digits, Color, Renderer};

fn pixel(fb: &Framebuffer, w: usize, x: usize, y: usize) -> u8 {
    fb.get_buffer()[y * w + x]
}

/// A font of 256 glyphs, 2 rows high: glyph `c` has row 0 = `c` and row 1 = 0.
fn tiny_font() -> Font {
    let mut buf = vec![0x36, 0x04, 0, 2];
    for c in 0..256u32 {
        buf.push(c as u8);
        buf.push(0);
    }
    Font::from_psf(&buf).expect("valid font")
}

#[test]
fn psf_header_is_checked() {
    assert!(Font::from_psf(&[0x36, 0x04, 0, 8]).is_none());
    assert!(Font::from_psf(&[0x35, 0x04, 0, 0]).is_none());
    let f = Font::from_psf(&[0x36, 0x04, 1, 0]).expect("empty glyphs");
    assert_eq!((f.size, f.height, f.data.len()), (512, 0, 0));
    let f = tiny_font();
    assert_eq!((f.size, f.height, f.data.len()), (256, 2, 512));
}

#[test]
fn text_pixels_follow_glyph_bits() {
    let font = tiny_font();
    let mut fb = Framebuffer::new(32, 4, 8, "");
    fb.draw_text(0, 1, "\u{81}@", 9, &font);
    assert_eq!(pixel(&fb, 32, 0, 1), 9);
    assert_eq!(pixel(&fb, 32, 7, 1), 9);
    assert_eq!(pixel(&fb, 32, 1, 1), 0);
    assert_eq!(pixel(&fb, 32, 9, 1), 9);
    assert_eq!(pixel(&fb, 32, 8, 1), 0);
    assert!((0..32).all(|x| pixel(&fb, 32, x, 2) == 0));
    // Characters are drawn by their code, one cell each: U+0100 has no
    // glyph in a 256-glyph font, so its cell stays empty.
    let mut wide = Framebuffer::new(32, 4, 8, "");
    wide.draw_text(0, 1, "\u{100}\u{81}", 9, &font);
    assert!((0..8).all(|x| pixel(&wide, 32, x, 1) == 0));
    assert_eq!(pixel(&wide, 32, 8, 1), 9);
    assert_eq!(pixel(&wide, 32, 15, 1), 9);
}

#[test]
fn rectangles_lines_circles_and_bitmaps() {
    let mut fb = Framebuffer::new(10, 10, 8, "");
    fb.clear(1);
    fb.draw_rectangle(-2, -2, 4, 4, 5);
    assert_eq!(pixel(&fb, 10, 0, 0), 5);
    assert_eq!(pixel(&fb, 10, 1, 1), 5);
    assert_eq!(pixel(&fb, 10, 2, 2), 1);
    fb.draw_line(0, 9, 9, 9, 3);
    assert!((0..10).all(|x| pixel(&fb, 10, x, 9) == 3));
    fb.draw_line(0, 0, 20, 0, 4);
    assert_eq!(pixel(&fb, 10, 9, 0), 4);
    fb.draw_bitmap(5, 5, &[true, false, false, true], 2, 2, 7, 8);
    assert_eq!(pixel(&fb, 10, 5, 5), 7);
    assert_eq!(pixel(&fb, 10, 6, 5), 8);
    assert_eq!(pixel(&fb, 10, 6, 6), 7);
    fb.draw_circle(5, 5, 2, 6, false);
    assert_eq!(pixel(&fb, 10, 7, 5), 6);
    assert_eq!(pixel(&fb, 10, 5, 3), 6);
    fb.draw_pixel(100, 100, 2);
    let mut copy = Framebuffer::new(10, 10, 8, "");
    copy.copy_from(&fb);
    assert_eq!(copy.get_buffer(), fb.get_buffer());
    let mut big = Framebuffer::new(20, 20, 8, "");
    big.copy_from_at(&fb, 10, 10);
    assert_eq!(pixel(&big, 20, 10, 10), 4);
    assert_eq!(pixel(&big, 20, 11, 11), 5);
    assert_eq!(pixel(&big, 20, 9, 10), 0);
}

#[test]
fn decimal_text() {
    assert_eq!(decimal_digits(0), b"0".to_vec());
    assert_eq!(decimal_digits(1207), b"1207".to_vec());
    assert_eq!(decimal_digits(usize::MAX), usize::MAX.to_string().into_bytes());
}

#[test]
fn color_indices() {
    assert_eq!(Color::Black.index(), 0);
    assert_eq!(Color::Red.index(), 4);
    assert_eq!(Color::LightGray.index(), 7);
    assert_eq!(Color::White.index(), 15);
}

#[test]
fn statistics_box_layout() {
    let font = tiny_font();
    let mut r = Renderer::new(320, 200, 8, 12, 10, 20);
    r.draw_stat(1, 3, 0, 2, &font);
    let fb = &r.framebuffer;
    assert_eq!(pixel(fb, 320, 0, 20), 3);
    assert_eq!(pixel(fb, 320, 79, 39), 3);
    assert_eq!(pixel(fb, 320, 2, 22), 7);
    assert_eq!(pixel(fb, 320, 0, 19), 0);
    // First ammo slot at x = 80 - 25 - 2 = 53: outline black, filled in player colour.
    assert_eq!(pixel(fb, 320, 54, 23), 0);
    assert_eq!(pixel(fb, 320, 54, 24), 3);
    // Third slot (x = 63) is empty: inside light gray.
    assert_eq!(pixel(fb, 320, 64, 24), 7);
    // 'P' = 0x50 = 0b0101_0000: pixels 1 and 3 of row 0 of the first cell at (4, 26).
    assert_eq!(pixel(fb, 320, 5, 26), 0);
    assert_eq!(pixel(fb, 320, 4, 26), 7);
}

#[test]
fn frame_shows_map_players_and_cursor() {
    let font = tiny_font();
    let draws = vec![(false, false); TILES_X * TILES_Y];
    let mut g = Game::new(320, 200, &draws);
    g.init(&draws);
    g.add_player(9, 0, 0);
    g.set_current_player(9);
    g.game_state.players[0].user_input.map_mouse_x = 200;
    g.game_state.players[0].user_input.map_mouse_y = 100;
    g.draw(&[(6, 6)], &[], &font);
    let fb = &g.renderer.framebuffer;
    // The top wall of the map, right of the panel, is black.
    assert_eq!(pixel(fb, 320, 100, 0), 0);
    // Inside the map: light gray.
    assert_eq!(pixel(fb, 320, 150, 150), 7);
    // The player square at (86, 6).
    assert_eq!(pixel(fb, 320, 86, 6), 9);
    assert_eq!(pixel(fb, 320, 93, 13), 9);
    // The cursor crosses at (200, 100).
    assert_eq!(pixel(fb, 320, 204, 100), 9);
    assert_eq!(pixel(fb, 320, 200, 96), 9);
    // The statistics box of the player.
    assert_eq!(pixel(fb, 320, 0, 0), 9);
}

#[test]
fn demo_round_connects_and_marks_walls() {
    let mut map = TileMap::new(40, 20, 2, 1, 20);
    map.set_outer_walls();
    map.tiles[0].right = true;
    let mut r = Renderer::new(320, 200, 8, 2, 1, 20);
    let areas = map.find_distinct_areas();
    assert_eq!(areas.len(), 2);
    let removed = map_demo_round(&mut map, &mut r, &areas);
    assert_eq!(removed, vec![(0, 0, 1)]);
    assert_eq!(map.find_distinct_areas().len(), 1);
    assert_eq!(pixel(&r.framebuffer, 320, 100, 10), Color::Red.index());
}

#[test]
fn palettes() {
    let p = Palette::new();
    assert!(p.colors.iter().all(|c| *c == (0, 0, 0)));
    let d = Palette::default();
    assert_eq!(d.colors[0x14], (0x80, 0x80, 0x00));
    assert_eq!(d.colors[0x3F], (0xFF, 0xFF, 0xFF));
    assert_eq!(d.colors[7], (0xC0, 0xC0, 0xC0));
    assert_eq!(d.colors[6], (0, 0, 0));
    let v = Palette::vga_256();
    assert_eq!(v.colors[4], (0xAA, 0, 0));
    assert_eq!(v.colors[16], (0, 0, 0));
    assert_eq!(v.colors[17], (0, 0, 95));
    assert_eq!(v.colors[231], (255, 255, 255));
    assert_eq!(v.colors[232], (8, 8, 8));
    assert_eq!(v.colors[255], (238, 238, 238));
    let bytes = v.to_bytes();
    assert_eq!(bytes.len(), Palette::size());
    assert_eq!(bytes[12..15], [0xAA, 0, 0]);
    let back = Palette::try_from(&bytes).expect("768 bytes");
    assert_eq!(back.colors, v.colors);
    assert!(Palette::try_from(&bytes[1..]).is_err());
    assert_eq!(v.clone().colors, v.colors);
}

#[test]
fn mouse_packets_become_events() {
    let m = Mouse::new();
    assert_eq!(m.internal_irq_handler(None), None);
    let e = m.internal_irq_handler(Some([0b1111_1001, 5, 3])).expect("event");
    assert_eq!(e, MouseEvent { x_movement: 5, y_movement: -3, buttons: 0b001 });
    assert!(e.is_left_click() && !e.is_right_click() && !e.is_middle_click());
    let e = m.internal_irq_handler(Some([0b110, 0xFF, 0xFE])).expect("event");
    assert_eq!((e.x_movement, e.y_movement), (-1, 2));
    assert!(e.is_right_click() && e.is_middle_click());
}


#[test]
fn statistics_box_below_the_screen_draws_nothing() {
    let font = tiny_font();
    let mut r = Renderer::new(320, 200, 8, 12, 10, 20);
    r.draw_stat(10, 3, 5, 2, &font);
    r.draw_stat(usize::MAX / 7, 3, 5, 2, &font);
    assert!(r.framebuffer.get_buffer().iter().all(|&b| b == 0));
    r.draw_stat(9, 3, 5, 2, &font);
    assert_eq!(pixel(&r.framebuffer, 320, 0, 180), 3);
    assert_eq!(pixel(&r.framebuffer, 320, 0, 179), 0);
}

#[test]
fn bullets_are_two_by_two_and_clip() {
    let mut r = Renderer::new(320, 200, 8, 12, 10, 20);
    r.draw_bullet(319, 199, 4);
    assert_eq!(pixel(&r.framebuffer, 320, 319, 199), 4);
    r.draw_bullet(isize::MAX - 1, 5, 4);
    r.draw_bullet(-1, -1, 6);
    assert_eq!(pixel(&r.framebuffer, 320, 0, 0), 6);
    assert_eq!(r.framebuffer.get_buffer().iter().filter(|&&b| b != 0).count(), 2);
}

#[test]
fn init_clears_the_screen_to_light_gray() {
    let draws = vec![(true, false); TILES_X * TILES_Y];
    let mut g = Game::new(320, 200, &draws);
    g.renderer.framebuffer.clear(9);
    g.init(&draws);
    assert!(g.renderer.framebuffer.get_buffer().iter().all(|&b| b == Color::LightGray.index()));
}

#[test]
fn far_cursor_is_clamped_to_the_right_edge() {
    let mut r = Renderer::new(320, 200, 8, 12, 10, 20);
    r.draw_mouse_cursor(1 << 40, 5, 4);
    assert_eq!(pixel(&r.framebuffer, 320, 319, 5), 4);
    assert_eq!(pixel(&r.framebuffer, 320, 318, 5), 0);
}

#[test]
fn circles_far_off_the_buffer_draw_nothing() {
    let mut fb = Framebuffer::new(10, 10, 8, "");
    fb.clear(1);
    let before = fb.get_buffer().to_vec();
    fb.draw_circle(1 << 40, -(1 << 40), 10, 6, true);
    fb.draw_circle(-(1 << 40), 5, 10, 6, false);
    assert_eq!(fb.get_buffer().to_vec(), before);
    // A circle whose left edge crosses the buffer from far to the right.
    fb.draw_circle(1005, 5, 1000, 6, false);
    assert_eq!(pixel(&fb, 10, 5, 5), 6);
}

#[test]
fn the_renderer_reports_its_screen_size() {
    assert_eq!(Renderer::new(320, 200, 8, 12, 10, 20).screen_size(), (320, 200));
    assert_eq!(Renderer::new(64, 48, 8, 2, 2, 20).screen_size(), (64, 48));
}
