//! Drawing of the game: the map, players, bullets, statistics and the
//! mouse cursor, on an off-screen framebuffer that is flushed to the screen.
use vstd::prelude::*;
use crate::sys::vga::framebuffer::{
    Framebuffer, Font, rect_paint, paint_set, paint_over, union_set, drawn_line, points_paint, line_points,
    clamp_below, copy_paint, point_paint, empty_set, no_paint, bitmap_paint, text_set,
};
use crate::usr::game::tanks::map::{
    TileMap, wall_segment, side_fits, tile_fits, walls_fit, lemma_grid_index, lemma_grid_index_injective,
};
use crate::usr::game::tanks::state::{GUI_WIDTH, GUI_HEIGHT_PER_PLAYER, MAX_AMMO, PLAYER_SIZE};

verus! {

/// Basic colours of the 8-bit palette.
#[derive(Clone, Copy, PartialEq, Eq, Structural, Debug)]
pub enum Color {
    Black,
    Blue,
    Green,
    Cyan,
    Red,
    Magenta,
    Brown,
    LightGray,
    DarkGray,
    LightBlue,
    LightGreen,
    LightCyan,
    LightRed,
    LightMagenta,
    Yellow,
    White,
}

impl Color {
    /// The palette index of the colour (0 for black up to 15 for white).
    pub open spec fn spec_index(self) -> u8 {
        match self {
            Color::Black => 0x00,
            Color::Blue => 0x01,
            Color::Green => 0x02,
            Color::Cyan => 0x03,
            Color::Red => 0x04,
            Color::Magenta => 0x05,
            Color::Brown => 0x06,
            Color::LightGray => 0x07,
            Color::DarkGray => 0x08,
            Color::LightBlue => 0x09,
            Color::LightGreen => 0x0A,
            Color::LightCyan => 0x0B,
            Color::LightRed => 0x0C,
            Color::LightMagenta => 0x0D,
            Color::Yellow => 0x0E,
            Color::White => 0x0F,
        }
    }

    /// The palette index of the colour.
    pub fn index(self) -> (i: u8)
        ensures
            i == self.spec_index(),
    {
        match self {
            Color::Black => 0x00,
            Color::Blue => 0x01,
            Color::Green => 0x02,
            Color::Cyan => 0x03,
            Color::Red => 0x04,
            Color::Magenta => 0x05,
            Color::Brown => 0x06,
            Color::LightGray => 0x07,
            Color::DarkGray => 0x08,
            Color::LightBlue => 0x09,
            Color::LightGreen => 0x0A,
            Color::LightCyan => 0x0B,
            Color::LightRed => 0x0C,
            Color::LightMagenta => 0x0D,
            Color::Yellow => 0x0E,
            Color::White => 0x0F,
        }
    }
}

/// Pixel `(px, py)` lies on a wall of tile `(tx, ty)` of `m`, as
/// `draw_map_buffer` draws it into a `w` by `h` buffer: on the line (see
/// `drawn_line`) of the segment `wall_segment` of some wall of the tile.
pub open spec fn tile_hit(m: TileMap, w: int, h: int, tx: int, ty: int, px: int, py: int) -> bool {
    exists|f: int|
        0 <= f < 4 && has_wall(m.tile(tx, ty), f) && #[trigger] segment_hit(
            w,
            h,
            wall_segment(tx, ty, m.tile_size as int, f),
            px,
            py,
        )
}

/// Pixel `(px, py)` lies on the drawn line of segment `s`.
pub open spec fn segment_hit(w: int, h: int, s: (int, int, int, int), px: int, py: int) -> bool {
    drawn_line(w, h, s.0, s.1, s.2, s.3, px, py)
}

/// The wall pixels of the tiles of `m` whose index is below `limit`.
pub open spec fn wall_pixels_below(m: TileMap, w: int, h: int, limit: int) -> spec_fn(int, int) -> bool {
    |px: int, py: int|
        exists|tx: int, ty: int|
            m.in_grid(tx, ty) && m.index_of(tx, ty) < limit && #[trigger] tile_hit(m, w, h, tx, ty, px, py)
}

/// The wall pixels of all tiles of `m` drawn into a `w` by `h` buffer.
pub open spec fn wall_pixels(m: TileMap, w: int, h: int) -> spec_fn(int, int) -> bool {
    wall_pixels_below(m, w, h, m.tiles_x * m.tiles_y)
}

/// Maps with the same dimensions and the same tiles have the same wall
/// pixels.
pub proof fn lemma_wall_pixels_same(a: TileMap, b: TileMap, w: int, h: int)
    requires
        a.same_shape(&b),
        a.tiles@ == b.tiles@,
    ensures
        forall|px: int, py: int| #[trigger] wall_pixels(a, w, h)(px, py) == wall_pixels(b, w, h)(px, py),
{
    assert forall|px: int, py: int| #[trigger] wall_pixels(a, w, h)(px, py) == wall_pixels(b, w, h)(px, py) by {
        assert forall|tx: int, ty: int| #[trigger] tile_hit(a, w, h, tx, ty, px, py) == tile_hit(b, w, h, tx, ty, px, py) by {
            assert(a.tile(tx, ty) == b.tile(tx, ty));
        }
        if wall_pixels(a, w, h)(px, py) {
            let (tx, ty) = choose|tx: int, ty: int|
                a.in_grid(tx, ty) && a.index_of(tx, ty) < a.tiles_x * a.tiles_y && #[trigger] tile_hit(a, w, h, tx, ty, px, py);
            assert(tile_hit(b, w, h, tx, ty, px, py));
        }
        if wall_pixels(b, w, h)(px, py) {
            let (tx, ty) = choose|tx: int, ty: int|
                b.in_grid(tx, ty) && b.index_of(tx, ty) < b.tiles_x * b.tiles_y && #[trigger] tile_hit(b, w, h, tx, ty, px, py);
            assert(tile_hit(a, w, h, tx, ty, px, py));
        }
    }
}

/// Whether tile walls `d` have the wall on side `f` (0 up, 1 right, 2
/// down, 3 left).
pub open spec fn has_wall(d: crate::usr::game::tanks::map::Direction, f: int) -> bool {
    if f == 0 {
        d.up
    } else if f == 1 {
        d.right
    } else if f == 2 {
        d.down
    } else {
        d.left
    }
}

/// The decimal digits of `n` as ASCII characters, most significant first.
pub open spec fn decimal(n: nat) -> Seq<u8>
    decreases n,
{
    if n < 10 {
        seq![(48 + n) as u8]
    } else {
        decimal(n / 10).push((48 + n % 10) as u8)
    }
}

/// Writes `n` in decimal (see `decimal`).
pub fn decimal_digits(n: usize) -> (out: Vec<u8>)
    ensures
        out@ == decimal(n as nat),
    decreases n,
{
    if n < 10 {
        let mut v: Vec<u8> = Vec::new();
        v.push(48 + n as u8);
        assert(v@ =~= seq![(48 + n) as u8]);
        v
    } else {
        let mut v = decimal_digits(n / 10);
        v.push(48 + (n % 10) as u8);
        v
    }
}

/// Ten to the power `k`.
pub open spec fn ten_pow(k: nat) -> nat
    decreases k,
{
    if k == 0 {
        1
    } else {
        10 * ten_pow((k - 1) as nat)
    }
}

/// A number below `10^k` has at most `k` decimal digits.
proof fn lemma_decimal_len_bound(n: nat, k: nat)
    requires
        k >= 1,
        n < ten_pow(k),
    ensures
        decimal(n).len() <= k,
    decreases k,
{
    reveal_with_fuel(ten_pow, 2);
    if n >= 10 && k > 1 {
        assert(n / 10 < ten_pow((k - 1) as nat)) by (nonlinear_arith)
            requires
                n < 10 * ten_pow((k - 1) as nat),
        ;
        lemma_decimal_len_bound(n / 10, (k - 1) as nat);
    }
}

/// A number below `2^64` has at most 20 decimal digits.
pub proof fn lemma_decimal_len(n: nat)
    requires
        n < 0x1_0000_0000_0000_0000,
    ensures
        decimal(n).len() <= 20,
{
    reveal_with_fuel(ten_pow, 21);
    assert(ten_pow(20) == 100_000_000_000_000_000_000);
    lemma_decimal_len_bound(n, 20);
}

/// The character codes of the points text of a statistics box: `P:` and
/// the points in decimal.
pub open spec fn points_text(points: nat) -> Seq<u32> {
    seq![80u32, 58u32] + decimal(points).map_values(|d: u8| d as u32)
}

/// The 4 by 13 picture of a bullet in the statistics box, row by row: an
/// outline with a rounded top.
pub open spec fn ammo_icon() -> Seq<bool> {
    seq![
        false, true, true, false,
        true, false, false, true,
        true, false, false, true,
        true, false, false, true,
        true, false, false, true,
        true, false, false, true,
        true, false, false, true,
        true, false, false, true,
        true, false, false, true,
        true, false, false, true,
        true, false, false, true,
        true, false, false, true,
        true, true, true, true,
    ]
}

/// The column of the `i`-th ammo slot of a statistics box.
pub open spec fn ammo_x(i: int) -> int {
    GUI_WIDTH - MAX_AMMO * 5 + i * 5 - 2
}

/// The first `i` ammo slots of a statistics box at row `y`: each the
/// bullet picture in black on light gray, filled in the player's colour
/// when the player holds that bullet.
pub open spec fn ammo_paints(y: int, color: u8, ammo: int, i: int) -> spec_fn(int, int) -> Option<u8>
    decreases i,
{
    if i <= 0 {
        no_paint()
    } else {
        let bx = ammo_x(i - 1);
        let icon = bitmap_paint(bx, y + 3, 4, 13, ammo_icon(), Color::Black.spec_index(), Color::LightGray.spec_index());
        let slot = if i - 1 < ammo {
            paint_over(rect_paint(bx + 1, y + 4, 2, 11, color), icon)
        } else {
            icon
        };
        paint_over(slot, ammo_paints(y, color, ammo, i - 1))
    }
}

/// The statistics box of the player at place `index` of the list: a frame
/// in the player's colour, a light gray inside, the points text in black
/// and the ammo slots.
pub open spec fn stat_paint(index: int, player_id: usize, points: nat, ammo: int, font: Font) -> spec_fn(
    int,
    int,
) -> Option<u8> {
    let y = index * GUI_HEIGHT_PER_PLAYER;
    let color = player_id as u8;
    let frame = rect_paint(0, y, GUI_WIDTH as int, GUI_HEIGHT_PER_PLAYER as int, color);
    let inside = rect_paint(2, y + 2, GUI_WIDTH - 4, GUI_HEIGHT_PER_PLAYER - 4, Color::LightGray.spec_index());
    let text = paint_set(text_set(font, points_text(points), 4, y + 6), Color::Black.spec_index());
    paint_over(ammo_paints(y, color, ammo, MAX_AMMO as int), paint_over(text, paint_over(inside, frame)))
}

/// The ammo slots of a statistics box at row `y` paint no pixel above row
/// `y`.
proof fn lemma_ammo_paints_below(y: int, color: u8, ammo: int, i: int, px: int, py: int)
    requires
        py < y,
    ensures
        ammo_paints(y, color, ammo, i)(px, py) is None,
    decreases i,
{
    if i > 0 {
        lemma_ammo_paints_below(y, color, ammo, i - 1, px, py);
    }
}

/// The statistics box at place `index` paints no pixel above its first
/// row `index * GUI_HEIGHT_PER_PLAYER`.
pub proof fn lemma_stat_paint_below(index: int, player_id: usize, points: nat, ammo: int, font: Font, px: int, py: int)
    requires
        py < index * GUI_HEIGHT_PER_PLAYER,
    ensures
        stat_paint(index, player_id, points, ammo, font)(px, py) is None,
{
    lemma_ammo_paints_below(index * GUI_HEIGHT_PER_PLAYER, player_id as u8, ammo, MAX_AMMO as int, px, py);
}

/// The marker of the first `m` tiles of `area`: for tile `(x, y)` a square
/// of `tile_size - 14` pixels at `(x * tile_size + GUI_WIDTH + 7,
/// y * tile_size + 7)` in colour `color`, later ones over earlier ones.
pub open spec fn area_paint(area: Seq<(usize, usize)>, ts: int, color: u8, m: int) -> spec_fn(int, int) -> Option<u8>
    decreases m,
{
    if m <= 0 {
        no_paint()
    } else {
        let t = area[m - 1];
        paint_over(
            rect_paint(t.0 * ts + GUI_WIDTH + 7, t.1 * ts + 7, ts - 14, ts - 14, color),
            area_paint(area, ts, color, m - 1),
        )
    }
}

/// The markers of the first `n` areas, area `i` in colour `i + 1`.
pub open spec fn areas_paint(areas: Seq<Seq<(usize, usize)>>, ts: int, n: int) -> spec_fn(int, int) -> Option<u8>
    decreases n,
{
    if n <= 0 {
        no_paint()
    } else {
        paint_over(
            area_paint(areas[n - 1], ts, n as u8, areas[n - 1].len() as int),
            areas_paint(areas, ts, n - 1),
        )
    }
}

/// The markers of the areas can be drawn: the far corner of every tile,
/// moved past the statistics column, stays within the range of `isize`.
pub open spec fn areas_fit(areas: Seq<Seq<(usize, usize)>>, ts: int) -> bool {
    forall|i: int, j: int|
        0 <= i < areas.len() && 0 <= j < areas[i].len() ==> {
            &&& (#[trigger] areas[i][j]).0 * ts + ts + GUI_WIDTH <= isize::MAX
            &&& areas[i][j].1 * ts + ts <= isize::MAX
        }
}

/// Draws the game on a screen framebuffer; the map is drawn once into a
/// buffer of its own and copied to the screen right of the statistics
/// panel.
pub struct Renderer {
    screen_width: usize,
    screen_height: usize,
    color_depth: u8,
    pub framebuffer: Framebuffer,
    map_buffer: Framebuffer,
    tiles_x: usize,
    tiles_y: usize,
    tile_size: usize,
}

impl Renderer {
    /// The screen buffer.
    pub closed spec fn spec_fb(&self) -> Framebuffer {
        self.framebuffer
    }

    /// The buffer holding the drawn map.
    pub closed spec fn spec_map_buffer(&self) -> Framebuffer {
        self.map_buffer
    }

    /// The screen dimensions and the map dimensions the renderer was made for.
    pub closed spec fn spec_screen(&self) -> (int, int) {
        (self.screen_width as int, self.screen_height as int)
    }

    /// The width and height of the screen in pixels.
    pub fn screen_size(&self) -> (r: (usize, usize))
        ensures
            (r.0 as int, r.1 as int) == self.spec_screen(),
    {
        (self.screen_width, self.screen_height)
    }

    /// The number of tiles and the tile size the renderer was made for.
    pub closed spec fn spec_tiles(&self) -> (int, int, int) {
        (self.tiles_x as int, self.tiles_y as int, self.tile_size as int)
    }

    /// Both buffers can be drawn on, with one byte per pixel; the screen is
    /// `screen_width` by `screen_height`, the map buffer as large as the map.
    pub open spec fn inv(&self) -> bool {
        &&& self.spec_fb().drawable()
        &&& self.spec_map_buffer().drawable()
        &&& self.spec_fb().bpp() == 1
        &&& self.spec_map_buffer().bpp() == 1
        &&& self.spec_fb().spec_width() == self.spec_screen().0
        &&& self.spec_fb().spec_height() == self.spec_screen().1
        &&& self.spec_map_buffer().spec_width() == self.spec_tiles().0 * self.spec_tiles().2
        &&& self.spec_map_buffer().spec_height() == self.spec_tiles().1 * self.spec_tiles().2
    }

    /// The renderer kept its dimensions and its map buffer.
    pub open spec fn same_setup(&self, other: &Renderer) -> bool {
        &&& self.spec_screen() == other.spec_screen()
        &&& self.spec_tiles() == other.spec_tiles()
        &&& self.spec_fb().same_geometry(&other.spec_fb())
        &&& self.spec_map_buffer().same_geometry(&other.spec_map_buffer())
    }

    /// Creates a renderer for a screen of `screen_width` by `screen_height`
    /// pixels and a map of `tiles_x` by `tiles_y` tiles of `tile_size`
    /// pixels; both buffers start black.
    pub fn new(
        screen_width: usize,
        screen_height: usize,
        color_depth: u8,
        tiles_x: usize,
        tiles_y: usize,
        tile_size: usize,
    ) -> (r: Self)
        requires
            screen_width <= isize::MAX,
            screen_height <= isize::MAX,
            screen_height * screen_width <= usize::MAX,
            tiles_x * tile_size <= isize::MAX,
            tiles_y * tile_size <= isize::MAX,
            (tiles_y * tile_size) * (tiles_x * tile_size) <= usize::MAX,
        ensures
            r.inv(),
            r.spec_screen() == (screen_width as int, screen_height as int),
            r.spec_tiles() == (tiles_x as int, tiles_y as int, tile_size as int),
            forall|i: int| 0 <= i < r.spec_fb().bytes().len() ==> #[trigger] r.spec_fb().bytes()[i] == 0,
            forall|i: int|
                0 <= i < r.spec_map_buffer().bytes().len() ==> #[trigger] r.spec_map_buffer().bytes()[i] == 0,
    {
        assert(screen_width * (8usize / 8) == screen_width);
        let framebuffer = Framebuffer::new(screen_width, screen_height, 8, "/dev/vga/buffer");
        assert(tiles_x * tile_size * (8usize / 8) == tiles_x * tile_size);
        let map_buffer = Framebuffer::new(tiles_x * tile_size, tiles_y * tile_size, 8, "");
        Renderer {
            screen_width,
            screen_height,
            color_depth,
            framebuffer,
            map_buffer,
            tiles_x,
            tiles_y,
            tile_size,
        }
    }

    /// Fills the screen with light gray.
    pub fn clear(&mut self)
        requires
            old(self).inv(),
        ensures
            final(self).inv(),
            final(self).same_setup(old(self)),
            final(self).spec_map_buffer() == old(self).spec_map_buffer(),
            forall|i: int|
                0 <= i < final(self).spec_fb().bytes().len() ==> #[trigger] final(self).spec_fb().bytes()[i]
                    == Color::LightGray.spec_index(),
    {
        self.framebuffer.clear(Color::LightGray.index());
    }

    /// Draws a player as a square of `PLAYER_SIZE` pixels with its corner at
    /// `(x, y)`.
    pub fn draw_player(&mut self, x: isize, y: isize, color: u8)
        requires
            old(self).inv(),
            x + PLAYER_SIZE <= isize::MAX,
            y + PLAYER_SIZE <= isize::MAX,
        ensures
            final(self).inv(),
            final(self).same_setup(old(self)),
            final(self).spec_map_buffer() == old(self).spec_map_buffer(),
            old(self).spec_fb().repainted(
                final(self).spec_fb().bytes(),
                rect_paint(x as int, y as int, PLAYER_SIZE as int, PLAYER_SIZE as int, color),
            ),
    {
        self.framebuffer.draw_rectangle(x, y, PLAYER_SIZE as isize, PLAYER_SIZE as isize, color);
    }

    /// Draws a bullet as a square of 2 by 2 pixels with its corner at
    /// `(x, y)`.
    pub fn draw_bullet(&mut self, x: isize, y: isize, color: u8)
        requires
            old(self).inv(),
            x < isize::MAX,
            y < isize::MAX,
        ensures
            final(self).inv(),
            final(self).same_setup(old(self)),
            final(self).spec_map_buffer() == old(self).spec_map_buffer(),
            old(self).spec_fb().repainted(final(self).spec_fb().bytes(), rect_paint(x as int, y as int, 2, 2, color)),
    {
        let ghost s0 = self.framebuffer;
        let ghost (xi, yi) = (x as int, y as int);
        self.framebuffer.draw_pixel(x, y, color);
        let ghost s1 = self.framebuffer;
        self.framebuffer.draw_pixel(x + 1, y, color);
        proof {
            s0.lemma_repaint_compose(&s1, self.framebuffer.bytes(), point_paint(xi, yi, color), point_paint(xi + 1, yi, color));
        }
        let ghost s2 = self.framebuffer;
        let ghost f2 = paint_over(point_paint(xi + 1, yi, color), point_paint(xi, yi, color));
        self.framebuffer.draw_pixel(x, y + 1, color);
        proof {
            s0.lemma_repaint_compose(&s2, self.framebuffer.bytes(), f2, point_paint(xi, yi + 1, color));
        }
        let ghost s3 = self.framebuffer;
        let ghost f3 = paint_over(point_paint(xi, yi + 1, color), f2);
        self.framebuffer.draw_pixel(x + 1, y + 1, color);
        proof {
            let f4 = paint_over(point_paint(xi + 1, yi + 1, color), f3);
            s0.lemma_repaint_compose(&s3, self.framebuffer.bytes(), f3, point_paint(xi + 1, yi + 1, color));
            assert forall|qx: int, qy: int| s0.in_bounds(qx, qy) implies #[trigger] f4(qx, qy) == rect_paint(
                xi,
                yi,
                2,
                2,
                color,
            )(qx, qy) by {}
            s0.lemma_repaint_same(self.framebuffer.bytes(), f4, rect_paint(xi, yi, 2, 2, color));
        }
    }

    /// Draws the statistics box of the player at place `index` of the list
    /// at the left of the screen (see `stat_paint`): identifier
    /// `player_id` gives the colour, then the points and the ammo. A box
    /// below the screen draws nothing; a box on the screen lies within
    /// `2^24` rows of the top, where the `f32` positions of its text are
    /// exact.
    pub fn draw_stat(&mut self, index: usize, player_id: usize, points: usize, ammo: usize, font: &Font)
        requires
            old(self).inv(),
            index > old(self).spec_screen().1 / GUI_HEIGHT_PER_PLAYER as int || index * GUI_HEIGHT_PER_PLAYER
                <= 0x100_0000 - 0x200,
            font.well_formed(),
        ensures
            final(self).inv(),
            final(self).same_setup(old(self)),
            final(self).spec_map_buffer() == old(self).spec_map_buffer(),
            old(self).spec_fb().repainted(
                final(self).spec_fb().bytes(),
                stat_paint(index as int, player_id, points as nat, ammo as int, *font),
            ),
    {
        let ghost s0 = self.framebuffer;
        if index > self.screen_height / GUI_HEIGHT_PER_PLAYER {
            proof {
                let h = self.screen_height as int;
                assert(index * GUI_HEIGHT_PER_PLAYER > h) by (nonlinear_arith)
                    requires
                        index > h / 20,
                        h >= 0,
                ;
                let f = stat_paint(index as int, player_id, points as nat, ammo as int, *font);
                assert forall|qx: int, qy: int| s0.in_bounds(qx, qy) implies #[trigger] no_paint()(qx, qy) == f(qx, qy) by {
                    lemma_stat_paint_below(index as int, player_id, points as nat, ammo as int, *font, qx, qy);
                }
                s0.lemma_repaint_none();
                s0.lemma_repaint_same(s0.bytes(), no_paint(), f);
            }
            return;
        }
        proof {
            let h = self.screen_height as int;
            assert(index * 20 <= h) by (nonlinear_arith)
                requires
                    index <= h / 20,
                    h >= 0,
            ;
        }
        let yu = index * GUI_HEIGHT_PER_PLAYER;
        assert(yu == index * 20 && yu <= 0x100_0000 - 0x200);
        let y = yu as isize;
        let color = player_id as u8;
        let ghost frame = rect_paint(0, y as int, GUI_WIDTH as int, GUI_HEIGHT_PER_PLAYER as int, color);
        let ghost inside = rect_paint(
            2,
            y + 2,
            GUI_WIDTH - 4,
            GUI_HEIGHT_PER_PLAYER - 4,
            Color::LightGray.spec_index(),
        );
        self.framebuffer.draw_rectangle(0, y, GUI_WIDTH as isize, GUI_HEIGHT_PER_PLAYER as isize, color);
        let ghost s1 = self.framebuffer;
        self.framebuffer.draw_rectangle(
            2,
            y + 2,
            GUI_WIDTH as isize - 4,
            GUI_HEIGHT_PER_PLAYER as isize - 4,
            Color::LightGray.index(),
        );
        proof {
            s0.lemma_repaint_compose(&s1, self.framebuffer.bytes(), frame, inside);
        }
        let ghost s2 = self.framebuffer;
        let mut text: Vec<u32> = Vec::new();
        text.push(80u32);
        text.push(58u32);
        let digits = decimal_digits(points);
        let mut i: usize = 0;
        while i < digits.len()
            invariant
                0 <= i <= digits@.len(),
                text@ == seq![80u32, 58u32] + digits@.take(i as int).map_values(|d: u8| d as u32),
            decreases digits@.len() - i,
        {
            text.push(digits[i] as u32);
            assert(digits@.take(i + 1) =~= digits@.take(i as int).push(digits@[i as int]));
            i = i + 1;
        }
        assert(digits@.take(digits@.len() as int) =~= digits@);
        assert(text@ =~= points_text(points as nat));
        proof {
            assert(decimal(points as nat).len() <= 20) by {
                lemma_decimal_len(points as nat);
            }
        }
        self.framebuffer.draw_glyphs(4, y + 6, text.as_slice(), Color::Black.index(), font);
        let ghost textp = paint_set(text_set(*font, points_text(points as nat), 4, y + 6), Color::Black.spec_index());
        proof {
            s0.lemma_repaint_compose(&s2, self.framebuffer.bytes(), paint_over(inside, frame), textp);
        }
        let ghost base = paint_over(textp, paint_over(inside, frame));
        let bullet_bitmap = [
            false, true, true, false, true, false, false, true, true, false, false, true, true,
            false, false, true, true, false, false, true, true, false, false, true, true, false,
            false, true, true, false, false, true, true, false, false, true, true, false, false,
            true, true, false, false, true, true, false, false, true, true, true, true, true,
        ];
        assert(bullet_bitmap@ =~= ammo_icon());
        let ghost s3 = self.framebuffer;
        assert(y == yu && 0 <= y <= 0x100_0000 - 0x200);
        proof {
            s3.lemma_repaint_none();
            s0.lemma_repaint_compose(&s3, self.framebuffer.bytes(), base, no_paint());
            s0.lemma_repaint_same(
                self.framebuffer.bytes(),
                paint_over(no_paint(), base),
                paint_over(ammo_paints(y as int, color, ammo as int, 0), base),
            );
        }
        let mut i: usize = 0;
        while i < MAX_AMMO
            invariant
                0 <= i <= MAX_AMMO,
                0 <= y <= 0x100_0000 - 0x200,
                bullet_bitmap@ == ammo_icon(),
                self.spec_map_buffer() == old(self).spec_map_buffer(),
                self.spec_screen() == old(self).spec_screen(),
                self.spec_tiles() == old(self).spec_tiles(),
                self.framebuffer.drawable(),
                self.framebuffer.same_geometry(&s0),
                s0.repainted(
                    self.framebuffer.bytes(),
                    paint_over(ammo_paints(y as int, color, ammo as int, i as int), base),
                ),
            decreases MAX_AMMO - i,
        {
            let bullet_x = GUI_WIDTH as isize - (MAX_AMMO as isize * 5) + (i * 5) as isize - 2;
            let bullet_y = y + 3;
            let ghost before = self.framebuffer;
            let ghost prev = paint_over(ammo_paints(y as int, color, ammo as int, i as int), base);
            self.framebuffer.draw_bitmap(
                bullet_x,
                bullet_y,
                &bullet_bitmap,
                4,
                13,
                Color::Black.index(),
                Color::LightGray.index(),
            );
            let ghost icon = bitmap_paint(
                bullet_x as int,
                bullet_y as int,
                4,
                13,
                ammo_icon(),
                Color::Black.spec_index(),
                Color::LightGray.spec_index(),
            );
            proof {
                s0.lemma_repaint_compose(&before, self.framebuffer.bytes(), prev, icon);
            }
            let ghost slot;
            if i < ammo {
                let ghost mid = self.framebuffer;
                self.framebuffer.draw_rectangle(bullet_x + 1, bullet_y + 1, 2, 11, color);
                proof {
                    let r = rect_paint(bullet_x + 1, bullet_y + 1, 2, 11, color);
                    s0.lemma_repaint_compose(&mid, self.framebuffer.bytes(), paint_over(icon, prev), r);
                    slot = paint_over(r, icon);
                    assert forall|qx: int, qy: int| s0.in_bounds(qx, qy) implies #[trigger] paint_over(
                        r,
                        paint_over(icon, prev),
                    )(qx, qy) == paint_over(slot, prev)(qx, qy) by {}
                    s0.lemma_repaint_same(self.framebuffer.bytes(), paint_over(r, paint_over(icon, prev)), paint_over(slot, prev));
                }
            } else {
                proof {
                    slot = icon;
                }
            }
            proof {
                let next = paint_over(ammo_paints(y as int, color, ammo as int, i + 1), base);
                assert(bullet_x == ammo_x(i as int));
                assert forall|qx: int, qy: int| s0.in_bounds(qx, qy) implies #[trigger] paint_over(slot, prev)(qx, qy)
                    == next(qx, qy) by {}
                s0.lemma_repaint_same(self.framebuffer.bytes(), paint_over(slot, prev), next);
            }
            i = i + 1;
        }
        proof {
            let fin = paint_over(ammo_paints(y as int, color, ammo as int, MAX_AMMO as int), base);
            assert forall|qx: int, qy: int| s0.in_bounds(qx, qy) implies #[trigger] fin(qx, qy) == stat_paint(
                index as int,
                player_id,
                points as nat,
                ammo as int,
                *font,
            )(qx, qy) by {}
            s0.lemma_repaint_same(
                self.framebuffer.bytes(),
                fin,
                stat_paint(index as int, player_id, points as nat, ammo as int, *font),
            );
        }
    }

    /// Draws the line from `(x1, y1)` to `(x2, y2)` on the screen (see
    /// `Framebuffer::draw_line`).
    pub fn draw_line(&mut self, x1: isize, y1: isize, x2: isize, y2: isize, color: u8)
        requires
            old(self).inv(),
        ensures
            final(self).inv(),
            final(self).same_setup(old(self)),
            final(self).spec_map_buffer() == old(self).spec_map_buffer(),
            old(self).spec_fb().repainted(
                final(self).spec_fb().bytes(),
                points_paint(
                    line_points(
                        clamp_below(x1 as int, old(self).spec_screen().0),
                        clamp_below(y1 as int, old(self).spec_screen().1),
                        clamp_below(x2 as int, old(self).spec_screen().0),
                        clamp_below(y2 as int, old(self).spec_screen().1),
                    ),
                    color,
                ),
            ),
    {
        self.framebuffer.draw_line(x1, y1, x2, y2, color);
    }

    /// Draws a crosshair at `(x, y)`: a horizontal and a vertical line of
    /// nine pixels through it.
    pub fn draw_mouse_cursor(&mut self, x: isize, y: isize, color: u8)
        requires
            old(self).inv(),
            isize::MIN + 4 <= x <= isize::MAX - 4,
            isize::MIN + 4 <= y <= isize::MAX - 4,
        ensures
            final(self).inv(),
            final(self).same_setup(old(self)),
            final(self).spec_map_buffer() == old(self).spec_map_buffer(),
            old(self).spec_fb().repainted(
                final(self).spec_fb().bytes(),
                paint_set(
                    union_set(
                        |px: int, py: int| drawn_line(old(self).spec_screen().0, old(self).spec_screen().1, x - 4, y as int, x + 4, y as int, px, py),
                        |px: int, py: int| drawn_line(old(self).spec_screen().0, old(self).spec_screen().1, x as int, y - 4, x as int, y + 4, px, py),
                    ),
                    color,
                ),
            ),
    {
        let ghost start = self.framebuffer;
        let ghost w = start.spec_width();
        let ghost h = start.spec_height();
        self.framebuffer.draw_line(x - 4, y, x + 4, y, color);
        let ghost mid = self.framebuffer;
        self.framebuffer.draw_line(x, y - 4, x, y + 4, color);
        proof {
            let l1 = |px: int, py: int| drawn_line(w, h, x - 4, y as int, x + 4, y as int, px, py);
            let l2 = |px: int, py: int| drawn_line(w, h, x as int, y - 4, x as int, y + 4, px, py);
            start.lemma_repaint_same(mid.bytes(), points_paint(line_points(clamp_below(x - 4, w), clamp_below(y as int, h), clamp_below(x + 4, w), clamp_below(y as int, h)), color), paint_set(l1, color));
            mid.lemma_repaint_same(self.framebuffer.bytes(), points_paint(line_points(clamp_below(x as int, w), clamp_below(y - 4, h), clamp_below(x as int, w), clamp_below(y + 4, h)), color), paint_set(l2, color));
            start.lemma_repaint_union(&mid, self.framebuffer.bytes(), l1, l2, color);
        }
    }

    /// Draws the wall of side `f` of tile `(x, y)` into the map buffer.
    fn draw_wall(&mut self, map: &TileMap, x: usize, y: usize, f: isize)
        requires
            old(self).inv(),
            map.well_formed(),
            map.in_grid(x as int, y as int),
            0 <= f < 4,
            side_fits(map.tiles_x as int, map.tiles_y as int, map.tile_size as int, x as int, y as int, f as int),
        ensures
            final(self).inv(),
            final(self).same_setup(old(self)),
            final(self).spec_fb() == old(self).spec_fb(),
            old(self).spec_map_buffer().repainted(
                final(self).spec_map_buffer().bytes(),
                paint_set(
                    |px: int, py: int|
                        segment_hit(
                            old(self).spec_map_buffer().spec_width(),
                            old(self).spec_map_buffer().spec_height(),
                            wall_segment(x as int, y as int, map.tile_size as int, f as int),
                            px,
                            py,
                        ),
                    Color::Black.spec_index(),
                ),
            ),
    {
        let ghost mb = self.map_buffer;
        let ghost w = mb.spec_width();
        let ghost h = mb.spec_height();
        let ghost ts = map.tile_size as int;
        let line = map.wall_coords(x as isize, y as isize, f);
        self.map_buffer.draw_line(line.0, line.1, line.2, line.3, Color::Black.index());
        proof {
            let s = wall_segment(x as int, y as int, ts, f as int);
            mb.lemma_repaint_same(
                self.map_buffer.bytes(),
                points_paint(line_points(clamp_below(s.0, w), clamp_below(s.1, h), clamp_below(s.2, w), clamp_below(s.3, h)), Color::Black.spec_index()),
                paint_set(|px: int, py: int| segment_hit(w, h, s, px, py), Color::Black.spec_index()),
            );
        }
    }

    /// Draws the walls of tile `(x, y)` into the map buffer, in the order up,
    /// right, down, left.
    fn draw_tile_walls(&mut self, map: &TileMap, x: usize, y: usize)
        requires
            old(self).inv(),
            map.well_formed(),
            map.in_grid(x as int, y as int),
            tile_fits(map.tiles_x as int, map.tiles_y as int, map.tile_size as int, map.tiles@, x as int, y as int),
        ensures
            final(self).inv(),
            final(self).same_setup(old(self)),
            final(self).spec_fb() == old(self).spec_fb(),
            old(self).spec_map_buffer().repainted(
                final(self).spec_map_buffer().bytes(),
                paint_set(
                    |px: int, py: int|
                        tile_hit(
                            *map,
                            old(self).spec_map_buffer().spec_width(),
                            old(self).spec_map_buffer().spec_height(),
                            x as int,
                            y as int,
                            px,
                            py,
                        ),
                    Color::Black.spec_index(),
                ),
            ),
    {
        let ghost start = self.map_buffer;
        let ghost w = start.spec_width();
        let ghost h = start.spec_height();
        let ghost ts = map.tile_size as int;
        let ghost black = Color::Black.spec_index();
        let ghost mut acc = empty_set();
        proof {
            start.lemma_repaint_same(start.bytes(), no_paint(), paint_set(acc, black));
        }
        let len = map.tiles.len();
        proof {
            lemma_grid_index(x as int, y as int, map.tiles_x as int, map.tiles_y as int);
        }
        let tile = map.tiles[y * map.tiles_x + x];
        let mut f: isize = 0;
        while f < 4
            invariant
                0 <= f <= 4,
                self.inv(),
                self.same_setup(old(self)),
                self.spec_fb() == old(self).spec_fb(),
                start == old(self).spec_map_buffer(),
                w == start.spec_width(),
                h == start.spec_height(),
                ts == map.tile_size,
                black == Color::Black.spec_index(),
                tile == map.tile(x as int, y as int),
                map.well_formed(),
                map.in_grid(x as int, y as int),
                tile_fits(map.tiles_x as int, map.tiles_y as int, map.tile_size as int, map.tiles@, x as int, y as int),
                start.repainted(self.map_buffer.bytes(), paint_set(acc, black)),
                forall|px: int, py: int|
                    #[trigger] acc(px, py) == (exists|g: int|
                        0 <= g < f && has_wall(tile, g) && #[trigger] segment_hit(w, h, wall_segment(x as int, y as int, ts, g), px, py)),
            decreases 4 - f,
        {
            let present = if f == 0 {
                tile.up
            } else if f == 1 {
                tile.right
            } else if f == 2 {
                tile.down
            } else {
                tile.left
            };
            let ghost prev = acc;
            if present {
                let ghost mid = self.map_buffer;
                self.draw_wall(map, x, y, f);
                proof {
                    let l = |px: int, py: int| segment_hit(w, h, wall_segment(x as int, y as int, ts, f as int), px, py);
                    start.lemma_repaint_union(&mid, self.map_buffer.bytes(), acc, l, black);
                    acc = union_set(acc, l);
                }
            }
            proof {
                assert forall|px: int, py: int|
                    #[trigger] acc(px, py) == (exists|g: int|
                        0 <= g < f + 1 && has_wall(tile, g) && #[trigger] segment_hit(w, h, wall_segment(x as int, y as int, ts, g), px, py)) by {
                    if acc(px, py) && !prev(px, py) {
                        assert(0 <= f < f + 1 && has_wall(tile, f as int) && segment_hit(w, h, wall_segment(x as int, y as int, ts, f as int), px, py));
                    }
                    if prev(px, py) {
                        let g = choose|g: int| 0 <= g < f && has_wall(tile, g) && #[trigger] segment_hit(w, h, wall_segment(x as int, y as int, ts, g), px, py);
                        assert(0 <= g < f + 1 && has_wall(tile, g) && segment_hit(w, h, wall_segment(x as int, y as int, ts, g), px, py));
                    }
                }
            }
            f = f + 1;
        }
        proof {
            let target = |px: int, py: int| tile_hit(*map, w, h, x as int, y as int, px, py);
            assert forall|px: int, py: int| start.in_bounds(px, py) implies #[trigger] paint_set(acc, black)(px, py) == paint_set(target, black)(px, py) by {
                if target(px, py) {
                    let g = choose|g: int| 0 <= g < 4 && has_wall(map.tile(x as int, y as int), g) && #[trigger] segment_hit(w, h, wall_segment(x as int, y as int, ts, g), px, py);
                    assert(acc(px, py));
                }
            }
            start.lemma_repaint_same(self.map_buffer.bytes(), paint_set(acc, black), paint_set(target, black));
        }
    }

    /// Draws the map into the map buffer: the buffer is filled with light
    /// gray and every wall of every tile is drawn in black (see
    /// `wall_pixels`).
    pub fn draw_map_buffer(&mut self, map: TileMap)
        requires
            old(self).inv(),
            map.well_formed(),
            walls_fit(map.tiles_x as int, map.tiles_y as int, map.tile_size as int, map.tiles@),
        ensures
            final(self).inv(),
            final(self).same_setup(old(self)),
            final(self).spec_fb() == old(self).spec_fb(),
            forall|px: int, py: int|
                final(self).spec_map_buffer().in_bounds(px, py) ==> #[trigger] final(self).spec_map_buffer().pixel(px, py)
                    == (if wall_pixels(
                    map,
                    final(self).spec_map_buffer().spec_width(),
                    final(self).spec_map_buffer().spec_height(),
                )(px, py) {
                    Color::Black.spec_index()
                } else {
                    Color::LightGray.spec_index()
                }),
    {
        self.map_buffer.clear(Color::LightGray.index());
        let ghost cleared = self.map_buffer;
        let ghost w = cleared.spec_width();
        let ghost h = cleared.spec_height();
        let ghost black = Color::Black.spec_index();
        let ghost setup = *self;
        let tx = map.tiles_x;
        let ty = map.tiles_y;
        proof {
            cleared.lemma_repaint_same(cleared.bytes(), no_paint(), paint_set(wall_pixels_below(map, w, h, 0), black));
        }
        let mut y: usize = 0;
        while y < ty
            invariant
                0 <= y <= ty,
                tx == map.tiles_x,
                ty == map.tiles_y,
                self.inv(),
                self.same_setup(&setup),
                self.spec_fb() == old(self).spec_fb(),
                setup.same_setup(old(self)),
                cleared.same_geometry(&self.spec_map_buffer()),
                w == cleared.spec_width(),
                h == cleared.spec_height(),
                black == Color::Black.spec_index(),
                map.well_formed(),
                walls_fit(map.tiles_x as int, map.tiles_y as int, map.tile_size as int, map.tiles@),
                cleared.repainted(self.spec_map_buffer().bytes(), paint_set(wall_pixels_below(map, w, h, y * tx), black)),
            decreases ty - y,
        {
            let mut x: usize = 0;
            while x < tx
                invariant
                    0 <= x <= tx,
                    0 <= y < ty,
                    tx == map.tiles_x,
                    ty == map.tiles_y,
                    self.inv(),
                    self.same_setup(&setup),
                    self.spec_fb() == old(self).spec_fb(),
                    setup.same_setup(old(self)),
                    cleared.same_geometry(&self.spec_map_buffer()),
                    w == cleared.spec_width(),
                    h == cleared.spec_height(),
                    black == Color::Black.spec_index(),
                    map.well_formed(),
                    walls_fit(map.tiles_x as int, map.tiles_y as int, map.tile_size as int, map.tiles@),
                    cleared.repainted(self.spec_map_buffer().bytes(), paint_set(wall_pixels_below(map, w, h, y * tx + x), black)),
                decreases tx - x,
            {
                let ghost mid = self.spec_map_buffer();
                self.draw_tile_walls(&map, x, y);
                proof {
                    let k = y * tx + x;
                    let before = wall_pixels_below(map, w, h, k);
                    let t = |px: int, py: int| tile_hit(map, w, h, x as int, y as int, px, py);
                    cleared.lemma_repaint_union(&mid, self.spec_map_buffer().bytes(), before, t, black);
                    let after = wall_pixels_below(map, w, h, k + 1);
                    assert forall|px: int, py: int| cleared.in_bounds(px, py) implies #[trigger] paint_set(union_set(before, t), black)(px, py)
                        == paint_set(after, black)(px, py) by {
                        if before(px, py) {
                            let (a, b) = choose|a: int, b: int| map.in_grid(a, b) && map.index_of(a, b) < k && #[trigger] tile_hit(map, w, h, a, b, px, py);
                            assert(map.in_grid(a, b) && map.index_of(a, b) < k + 1 && tile_hit(map, w, h, a, b, px, py));
                        }
                        if t(px, py) {
                            assert(map.in_grid(x as int, y as int) && map.index_of(x as int, y as int) < k + 1 && tile_hit(map, w, h, x as int, y as int, px, py));
                        }
                        if after(px, py) {
                            let (a, b) = choose|a: int, b: int| map.in_grid(a, b) && map.index_of(a, b) < k + 1 && #[trigger] tile_hit(map, w, h, a, b, px, py);
                            if map.index_of(a, b) == k {
                                lemma_grid_index_injective(a, b, x as int, y as int, tx as int);
                            } else {
                                assert(map.in_grid(a, b) && map.index_of(a, b) < k && tile_hit(map, w, h, a, b, px, py));
                            }
                        }
                    }
                    cleared.lemma_repaint_same(self.spec_map_buffer().bytes(), paint_set(union_set(before, t), black), paint_set(after, black));
                }
                x = x + 1;
            }
            proof {
                assert(y * tx + tx == (y + 1) * tx) by (nonlinear_arith);
            }
            y = y + 1;
        }
        proof {
            assert(ty * tx == tx * ty) by (nonlinear_arith);
            let fin = self.spec_map_buffer();
            assert forall|px: int, py: int| fin.in_bounds(px, py) implies #[trigger] fin.pixel(px, py)
                == (if wall_pixels(map, fin.spec_width(), fin.spec_height())(px, py) {
                    Color::Black.spec_index()
                } else {
                    Color::LightGray.spec_index()
                }) by {
                assert(cleared.in_bounds(px, py));
                cleared.lemma_index(px, py, px, py);
                assert(cleared.pixel(px, py) == Color::LightGray.spec_index());
            }
        }
    }

    /// Marks the tiles of each area with a square in the area's colour:
    /// area `i` in colour `i + 1` (see `areas_paint`).
    pub fn draw_areas(&mut self, areas: &Vec<Vec<(usize, usize)>>)
        requires
            old(self).inv(),
            old(self).spec_tiles().2 >= 14,
            old(self).spec_tiles().2 <= isize::MAX,
            areas_fit(areas@.map_values(|a: Vec<(usize, usize)>| a@), old(self).spec_tiles().2),
        ensures
            final(self).inv(),
            final(self).same_setup(old(self)),
            final(self).spec_map_buffer() == old(self).spec_map_buffer(),
            old(self).spec_fb().repainted(
                final(self).spec_fb().bytes(),
                areas_paint(
                    areas@.map_values(|a: Vec<(usize, usize)>| a@),
                    old(self).spec_tiles().2,
                    areas@.len() as int,
                ),
            ),
    {
        let ghost s0 = self.framebuffer;
        let ghost ar = areas@.map_values(|a: Vec<(usize, usize)>| a@);
        let ts = self.tile_size;
        proof {
            s0.lemma_repaint_none();
            s0.lemma_repaint_same(s0.bytes(), no_paint(), areas_paint(ar, ts as int, 0));
        }
        let mut i: usize = 0;
        while i < areas.len()
            invariant
                0 <= i <= areas@.len(),
                ar == areas@.map_values(|a: Vec<(usize, usize)>| a@),
                ts == self.tile_size,
                14 <= ts <= isize::MAX,
                areas_fit(ar, ts as int),
                self.spec_map_buffer() == old(self).spec_map_buffer(),
                self.spec_screen() == old(self).spec_screen(),
                self.spec_tiles() == old(self).spec_tiles(),
                self.framebuffer.drawable(),
                self.framebuffer.same_geometry(&s0),
                s0 == old(self).spec_fb(),
                s0.repainted(self.framebuffer.bytes(), areas_paint(ar, ts as int, i as int)),
            decreases areas@.len() - i,
        {
            let area = &areas[i];
            assert(area@ == ar[i as int]);
            let color = (i + 1) as u8;
            let ghost base = areas_paint(ar, ts as int, i as int);
            proof {
                s0.lemma_repaint_same(
                    self.framebuffer.bytes(),
                    base,
                    paint_over(area_paint(area@, ts as int, color, 0), base),
                );
            }
            let mut j: usize = 0;
            while j < area.len()
                invariant
                    0 <= j <= area@.len(),
                    0 <= i < areas@.len(),
                    ar == areas@.map_values(|a: Vec<(usize, usize)>| a@),
                    area@ == ar[i as int],
                    color == (i + 1) as u8,
                    ts == self.tile_size,
                    14 <= ts <= isize::MAX,
                    areas_fit(ar, ts as int),
                    self.spec_map_buffer() == old(self).spec_map_buffer(),
                    self.spec_screen() == old(self).spec_screen(),
                    self.spec_tiles() == old(self).spec_tiles(),
                    self.framebuffer.drawable(),
                    self.framebuffer.same_geometry(&s0),
                    s0.repainted(self.framebuffer.bytes(), paint_over(area_paint(area@, ts as int, color, j as int), base)),
                decreases area@.len() - j,
            {
                let (x, y) = area[j];
                assert(ar[i as int][j as int] == (x, y));
                assert(x * ts + ts + GUI_WIDTH <= isize::MAX && y * ts + ts <= isize::MAX) by {
                    assert(ar.len() == areas@.len());
                    assert(0 <= j < ar[i as int].len());
                    let t = ar[i as int][j as int];
                    assert(t.0 * ts + ts + GUI_WIDTH <= isize::MAX && t.1 * ts + ts <= isize::MAX);
                }
                proof {
                    assert(x * ts >= 0 && y * ts >= 0) by (nonlinear_arith)
                        requires
                            x >= 0,
                            y >= 0,
                            ts >= 0,
                    ;
                }
                let x_pos = x * ts;
                let y_pos = y * ts;
                let ghost before = self.framebuffer;
                let ghost prev = paint_over(area_paint(area@, ts as int, color, j as int), base);
                self.framebuffer.draw_rectangle(
                    (x_pos + GUI_WIDTH + 7) as isize,
                    (y_pos + 7) as isize,
                    (ts - 14) as isize,
                    (ts - 14) as isize,
                    color,
                );
                proof {
                    let r = rect_paint(x_pos + GUI_WIDTH + 7, y_pos + 7, ts - 14, ts - 14, color);
                    s0.lemma_repaint_compose(&before, self.framebuffer.bytes(), prev, r);
                    let next = paint_over(area_paint(area@, ts as int, color, j + 1), base);
                    assert forall|qx: int, qy: int| s0.in_bounds(qx, qy) implies #[trigger] paint_over(r, prev)(qx, qy)
                        == next(qx, qy) by {}
                    s0.lemma_repaint_same(self.framebuffer.bytes(), paint_over(r, prev), next);
                }
                j = j + 1;
            }
            proof {
                let next = areas_paint(ar, ts as int, i + 1);
                assert(color == (i + 1) as u8);
                assert forall|qx: int, qy: int| s0.in_bounds(qx, qy) implies #[trigger] paint_over(
                    area_paint(area@, ts as int, color, area@.len() as int),
                    base,
                )(qx, qy) == next(qx, qy) by {}
                s0.lemma_repaint_same(
                    self.framebuffer.bytes(),
                    paint_over(area_paint(area@, ts as int, color, area@.len() as int), base),
                    next,
                );
            }
            i = i + 1;
        }
    }

    /// Copies the map buffer to the screen right of the statistics panel.
    pub fn draw_map(&mut self)
        requires
            old(self).inv(),
            GUI_WIDTH + old(self).spec_map_buffer().spec_width() <= old(self).spec_fb().spec_width(),
            old(self).spec_map_buffer().spec_height() <= old(self).spec_fb().spec_height(),
        ensures
            final(self).inv(),
            final(self).same_setup(old(self)),
            final(self).spec_map_buffer() == old(self).spec_map_buffer(),
            old(self).spec_fb().repainted(
                final(self).spec_fb().bytes(),
                copy_paint(GUI_WIDTH as int, 0, old(self).spec_map_buffer()),
            ),
    {
        self.framebuffer.copy_from_at(&self.map_buffer, GUI_WIDTH, 0);
    }
}

} // verus!
