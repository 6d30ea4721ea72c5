//! An off-screen framebuffer of `width` by `height` pixels with
//! `color_depth` bits per pixel, and the drawing primitives of the game.
//!
//! A pixel `(x, y)` is the byte at `y * pitch + x * (color_depth / 8)`; the
//! other bytes of a pixel wider than one byte are never written. Every
//! drawing operation is described by the colour it gives each pixel (see
//! `Framebuffer::repainted`).
use vstd::prelude::*;

verus! {

/// A framebuffer in memory, written to the device file `file_path` on
/// `flush`.
pub struct Framebuffer {
    width: usize,
    height: usize,
    color_depth: usize,
    pitch: usize,
    file_path: &'static str,
    internal_buffer: Vec<u8>,
    buffer_size: usize,
}

/// Product facts about the pixel layout: with `pitch == width * bpp`, the
/// index of an in-bounds pixel lies inside the buffer and two in-bounds
/// pixels with the same index are the same pixel.
pub proof fn lemma_pixel_layout(w: int, h: int, bpp: int, x1: int, y1: int, x2: int, y2: int)
    requires
        bpp > 0,
        0 <= x1 < w,
        0 <= y1 < h,
        0 <= x2 < w,
        0 <= y2 < h,
    ensures
        0 <= y1 * (w * bpp) + x1 * bpp < h * (w * bpp),
        y1 * (w * bpp) + x1 * bpp == y2 * (w * bpp) + x2 * bpp ==> x1 == x2 && y1 == y2,
{
    assert(y1 * (w * bpp) + x1 * bpp == bpp * (y1 * w + x1)) by (nonlinear_arith);
    assert(y2 * (w * bpp) + x2 * bpp == bpp * (y2 * w + x2)) by (nonlinear_arith);
    assert(h * (w * bpp) == bpp * (w * h)) by (nonlinear_arith);
    assert(0 <= y1 * w + x1 < w * h) by (nonlinear_arith)
        requires
            0 <= x1 < w,
            0 <= y1 < h,
    ;
    assert(bpp * (y1 * w + x1) < bpp * (w * h)) by (nonlinear_arith)
        requires
            bpp > 0,
            y1 * w + x1 < w * h,
    ;
    assert(0 <= bpp * (y1 * w + x1)) by (nonlinear_arith)
        requires
            bpp > 0,
            0 <= y1 * w + x1,
    ;
    if bpp * (y1 * w + x1) == bpp * (y2 * w + x2) {
        assert(y1 * w + x1 == y2 * w + x2) by (nonlinear_arith)
            requires
                bpp > 0,
                bpp * (y1 * w + x1) == bpp * (y2 * w + x2),
        ;
        if y1 < y2 {
            assert(y1 * w + w <= y2 * w) by (nonlinear_arith)
                requires
                    y1 < y2,
                    0 <= w,
            ;
        } else if y2 < y1 {
            assert(y2 * w + w <= y1 * w) by (nonlinear_arith)
                requires
                    y2 < y1,
                    0 <= w,
            ;
        }
    }
}

/// A bitmap font of `size` glyphs, each 8 pixels wide and `height` rows
/// high, stored glyph after glyph with one byte per row, the leftmost pixel
/// in the most significant bit.
pub struct Font {
    pub height: u8,
    pub size: u16,
    pub data: Vec<u8>,
}

impl Font {
    /// The data holds all glyphs.
    pub open spec fn well_formed(&self) -> bool {
        self.data@.len() >= self.size * self.height
    }

    /// Pixel `(dx, dy)` of glyph `c` is set.
    pub open spec fn glyph_bit(&self, c: int, dx: int, dy: int) -> bool {
        (self.data@[c * self.height + dy] >> ((7 - dx) as u8)) & 1u8 == 1u8
    }

    /// Decodes a font in the PSF1 format: the magic bytes `0x36 0x04`, a
    /// mode byte (bit 0 set for 512 glyphs, else 256), the glyph height,
    /// then the glyphs. `None` for a wrong magic or too little data.
    pub fn from_psf(buf: &[u8]) -> (r: Option<Font>)
        ensures
            r is Some <==> (buf@.len() >= 4 && buf@[0] == 0x36 && buf@[1] == 0x04 && buf@.len() >= 4 + (
            if buf@[2] & 1u8 == 1u8 {
                512int
            } else {
                256int
            }) * buf@[3]),
            r matches Some(f) ==> {
                &&& f.height == buf@[3]
                &&& f.size == (if buf@[2] & 1u8 == 1u8 {
                    512int
                } else {
                    256int
                })
                &&& f.data@ == buf@.subrange(4, 4 + f.size * f.height)
                &&& f.well_formed()
            },
    {
        if buf.len() < 4 || buf[0] != 0x36 || buf[1] != 0x04 {
            return None;
        }
        let mode = buf[2];
        let height = buf[3];
        let size: u16 = if mode & 1 == 1 { 512 } else { 256 };
        assert(size <= 512);
        proof {
            assert((size as usize) * (height as usize) <= 512 * 255) by (nonlinear_arith)
                requires
                    size <= 512,
                    height <= 255,
            ;
        }
        let n = 4 + (size as usize) * (height as usize);
        if buf.len() < n {
            return None;
        }
        let mut data: Vec<u8> = Vec::new();
        let mut i: usize = 4;
        while i < n
            invariant
                4 <= i <= n,
                n <= buf@.len(),
                data@ == buf@.subrange(4, i as int),
            decreases n - i,
        {
            data.push(buf[i]);
            assert(buf@.subrange(4, i + 1) =~= buf@.subrange(4, i as int).push(buf@[i as int]));
            i = i + 1;
        }
        Some(Font { height, size, data })
    }
}

/// Pixel `(px, py)` belongs to `text` drawn with `font` from `(x, y)`:
/// it lies in the cell of the `k`-th character, 8 pixels wide from
/// `x + 8 * k`, at row `dy` and column `dx` of that cell, the character has
/// a glyph, and that pixel of the glyph is set.
pub open spec fn text_pixel(font: Font, text: Seq<u32>, x: int, y: int, px: int, py: int) -> bool {
    let k = (px - x) / 8;
    let dx = (px - x) % 8;
    let dy = py - y;
    &&& px >= x
    &&& 0 <= dy < font.height
    &&& k < text.len()
    &&& text[k] < font.size
    &&& font.glyph_bit(text[k] as int, dx, dy)
}

/// The pixels of `text` that come before column `dx` of row `dy` of the
/// `k`-th character, in drawing order.
pub open spec fn text_prefix(font: Font, text: Seq<u32>, x: int, y: int, k: int, dy: int, dx: int) -> spec_fn(
    int,
    int,
) -> bool {
    |px: int, py: int|
        text_pixel(font, text, x, y, px, py) && {
            let kk = (px - x) / 8;
            let ddx = (px - x) % 8;
            let ddy = py - y;
            kk < k || (kk == k && (ddy < dy || (ddy == dy && ddx < dx)))
        }
}

/// The pixels of `text` drawn with `font` from `(x, y)`.
pub open spec fn text_set(font: Font, text: Seq<u32>, x: int, y: int) -> spec_fn(int, int) -> bool {
    |px: int, py: int| text_pixel(font, text, x, y, px, py)
}

/// The character codes of a text.
pub open spec fn char_codes(text: Seq<char>) -> Seq<u32> {
    text.map_values(|c: char| c as u32)
}

/// The code of each character of `text`, in order.
fn codes_of(text: &str) -> (codes: Vec<u32>)
    ensures
        codes@ == char_codes(text@),
{
    broadcast use vstd::string::axiom_spec_iter;
    let mut codes: Vec<u32> = Vec::new();
    for c in it: text.chars()
        invariant
            codes@ == char_codes(it.seq().take(it.index() as int)),
            it.seq() == text@,
    {
        codes.push(c as u32);
    }
    codes
}


/// The colour `f` gives a pixel, or the old colour where it gives none.
pub open spec fn overlay(f: spec_fn(int, int) -> Option<u8>, x: int, y: int, old: u8) -> u8 {
    match f(x, y) {
        Some(c) => c,
        None => old,
    }
}

/// Paint `g` over paint `f`.
pub open spec fn paint_over(g: spec_fn(int, int) -> Option<u8>, f: spec_fn(int, int) -> Option<u8>) -> spec_fn(
    int,
    int,
) -> Option<u8> {
    |x: int, y: int|
        match g(x, y) {
            Some(c) => Some(c),
            None => f(x, y),
        }
}

/// Colour `c` on the pixels of `s`.
pub open spec fn paint_set(s: spec_fn(int, int) -> bool, c: u8) -> spec_fn(int, int) -> Option<u8> {
    |x: int, y: int|
        if s(x, y) {
            Some(c)
        } else {
            None
        }
}

/// Colour `c` on the single pixel `(x, y)`.
pub open spec fn point_paint(x: int, y: int, c: u8) -> spec_fn(int, int) -> Option<u8> {
    |px: int, py: int|
        if px == x && py == y {
            Some(c)
        } else {
            None
        }
}

/// Colour `c` on the pixels of the rectangle with corner `(x, y)`, `w`
/// pixels wide and `h` pixels high.
pub open spec fn rect_paint(x: int, y: int, w: int, h: int, c: u8) -> spec_fn(int, int) -> Option<u8> {
    |px: int, py: int|
        if x <= px < x + w && y <= py < y + h {
            Some(c)
        } else {
            None
        }
}

/// Colour `c` on the first `dy` rows of the rectangle at `(x, y)` of width
/// `w`, and on the first `dx` pixels of the next row.
pub open spec fn rect_prefix_paint(x: int, y: int, w: int, dy: int, dx: int, c: u8) -> spec_fn(int, int) -> Option<u8> {
    |px: int, py: int|
        if (y <= py < y + dy && x <= px < x + w) || (py == y + dy && x <= px < x + dx) {
            Some(c)
        } else {
            None
        }
}

/// The bitmap image at `(x, y)`: pixel `(x + dx, y + dy)` of the `w` by `h`
/// rectangle gets `fg` where entry `dy * w + dx` of `bitmap` is set and `bg`
/// elsewhere.
pub open spec fn bitmap_paint(x: int, y: int, w: int, h: int, bitmap: Seq<bool>, fg: u8, bg: u8) -> spec_fn(
    int,
    int,
) -> Option<u8> {
    |px: int, py: int|
        if x <= px < x + w && y <= py < y + h {
            Some(
                if bitmap[(py - y) * w + (px - x)] {
                    fg
                } else {
                    bg
                },
            )
        } else {
            None
        }
}

/// The bitmap image restricted to its first `dy` rows and the first `dx`
/// pixels of the next row.
pub open spec fn bitmap_prefix_paint(
    x: int,
    y: int,
    w: int,
    bitmap: Seq<bool>,
    fg: u8,
    bg: u8,
    dy: int,
    dx: int,
) -> spec_fn(int, int) -> Option<u8> {
    |px: int, py: int|
        if (y <= py < y + dy && x <= px < x + w) || (py == y + dy && x <= px < x + dx) {
            Some(
                if bitmap[(py - y) * w + (px - x)] {
                    fg
                } else {
                    bg
                },
            )
        } else {
            None
        }
}

/// The pixels of `other` placed with its corner at `(x, y)`, restricted to
/// its first `dy` rows and the first `dx` pixels of the next row.
pub open spec fn copy_prefix_paint(x: int, y: int, other: Framebuffer, dy: int, dx: int) -> spec_fn(int, int) -> Option<u8> {
    |px: int, py: int|
        if (y <= py < y + dy && x <= px < x + other.spec_width()) || (py == y + dy && x <= px < x + dx) {
            Some(other.pixel(px - x, py - y))
        } else {
            None
        }
}

/// The pixels of `other` placed with its corner at `(x, y)`.
pub open spec fn copy_paint(x: int, y: int, other: Framebuffer) -> spec_fn(int, int) -> Option<u8> {
    |px: int, py: int|
        if x <= px < x + other.spec_width() && y <= py < y + other.spec_height() {
            Some(other.pixel(px - x, py - y))
        } else {
            None
        }
}

/// The pixels visited by Bresenham's walk from `(x, y)` towards `(x2, y2)`
/// with error term `err`, for at most `fuel` steps: at each step the error
/// decides whether to advance along x (by `sx`), along y (by `sy`), or both.
pub open spec fn line_walk(
    x: int,
    y: int,
    x2: int,
    y2: int,
    dx: int,
    dy: int,
    sx: int,
    sy: int,
    err: int,
    fuel: nat,
) -> Seq<(int, int)>
    decreases fuel,
{
    if (x == x2 && y == y2) || fuel == 0 {
        seq![(x, y)]
    } else {
        let e2 = 2 * err;
        let err1 = if e2 > -dy { err - dy } else { err };
        let nx = if e2 > -dy { x + sx } else { x };
        let err2 = if e2 < dx { err1 + dx } else { err1 };
        let ny = if e2 < dx { y + sy } else { y };
        seq![(x, y)] + line_walk(nx, ny, x2, y2, dx, dy, sx, sy, err2, (fuel - 1) as nat)
    }
}

/// `|v|`.
pub open spec fn abs_int(v: int) -> int {
    if v < 0 {
        -v
    } else {
        v
    }
}

/// The pixels of the line from `(x1, y1)` to `(x2, y2)` by Bresenham's
/// algorithm, in drawing order.
pub open spec fn line_points(x1: int, y1: int, x2: int, y2: int) -> Seq<(int, int)> {
    let dx = abs_int(x2 - x1);
    let dy = abs_int(y2 - y1);
    let sx = if x1 < x2 { 1int } else { -1int };
    let sy = if y1 < y2 { 1int } else { -1int };
    line_walk(x1, y1, x2, y2, dx, dy, sx, sy, dx - dy, (dx + dy) as nat)
}

/// Colour `c` on the pixels of a sequence of points.
pub open spec fn points_paint(pts: Seq<(int, int)>, c: u8) -> spec_fn(int, int) -> Option<u8> {
    |px: int, py: int|
        if pts.contains((px, py)) {
            Some(c)
        } else {
            None
        }
}

/// A coordinate that the circle algorithm computes lies in the range of
/// `isize`.
pub open spec fn coord_ok(v: int) -> bool {
    isize::MIN <= v <= isize::MAX
}

/// `v`, lowered to `bound - 1` when it is `bound` or more.
pub open spec fn clamp_below(v: int, bound: int) -> int {
    if v >= bound {
        bound - 1
    } else {
        v
    }
}

/// The pixels of either set.
pub open spec fn union_set(s1: spec_fn(int, int) -> bool, s2: spec_fn(int, int) -> bool) -> spec_fn(int, int) -> bool {
    |x: int, y: int| s1(x, y) || s2(x, y)
}

/// The single pixel `(x, y)`.
pub open spec fn point_set(x: int, y: int) -> spec_fn(int, int) -> bool {
    |px: int, py: int| px == x && py == y
}

/// The empty set of pixels.
pub open spec fn empty_set() -> spec_fn(int, int) -> bool {
    |px: int, py: int| false
}

/// The points `(x, y)` visited by the midpoint circle walk from `(x, y)`
/// with error term `err` while `x >= y`: each step advances `y` when the
/// error is not positive, then moves `x` inwards when it is positive.
pub open spec fn circle_walk(x: int, y: int, err: int) -> Seq<(int, int)>
    decreases (if x >= y { x - y + 1 } else { 0 }),
{
    if x < y {
        Seq::empty()
    } else {
        let y1 = if err <= 0 { y + 1 } else { y };
        let e1 = if err <= 0 { err + 2 * (y + 1) + 1 } else { err };
        let x1 = if e1 > 0 { x - 1 } else { x };
        let e2 = if e1 > 0 { e1 - 2 * (x - 1) - 1 } else { e1 };
        seq![(x, y)] + circle_walk(x1, y1, e2)
    }
}

/// The eight mirror images of `(x, y)` around the centre `(cx, cy)`.
pub open spec fn octant_hit(cx: int, cy: int, x: int, y: int, px: int, py: int) -> bool {
    ||| (px == cx + x && py == cy + y)
    ||| (px == cx - x && py == cy + y)
    ||| (px == cx + y && py == cy + x)
    ||| (px == cx - y && py == cy + x)
    ||| (px == cx + x && py == cy - y)
    ||| (px == cx - x && py == cy - y)
    ||| (px == cx + y && py == cy - x)
    ||| (px == cx - y && py == cy - x)
}

/// The pixels of the line that `draw_line` draws from `(x1, y1)` to
/// `(x2, y2)` in a `w` by `h` buffer.
pub open spec fn drawn_line(w: int, h: int, x1: int, y1: int, x2: int, y2: int, px: int, py: int) -> bool {
    line_points(clamp_below(x1, w), clamp_below(y1, h), clamp_below(x2, w), clamp_below(y2, h)).contains(
        (px, py),
    )
}

/// The four horizontal spans through the mirror images of `(x, y)` around
/// `(cx, cy)`, as drawn in a `w` by `h` buffer.
pub open spec fn span_hit(w: int, h: int, cx: int, cy: int, x: int, y: int, px: int, py: int) -> bool {
    ||| drawn_line(w, h, cx - x, cy + y, cx + x, cy + y, px, py)
    ||| drawn_line(w, h, cx - x, cy - y, cx + x, cy - y, px, py)
    ||| drawn_line(w, h, cx - y, cy + x, cx + y, cy + x, px, py)
    ||| drawn_line(w, h, cx - y, cy - x, cx + y, cy - x, px, py)
}

/// The pixels that one step of `draw_circle` at walk point `(x, y)` draws.
pub open spec fn circle_step_hit(w: int, h: int, cx: int, cy: int, x: int, y: int, filled: bool, px: int, py: int) -> bool {
    if filled {
        span_hit(w, h, cx, cy, x, y, px, py)
    } else {
        octant_hit(cx, cy, x, y, px, py)
    }
}

/// The pixels of the circle drawn for the walk points `pts`.
pub open spec fn circle_set(w: int, h: int, cx: int, cy: int, pts: Seq<(int, int)>, filled: bool) -> spec_fn(
    int,
    int,
) -> bool {
    |px: int, py: int|
        exists|k: int| 0 <= k < pts.len() && #[trigger] circle_step_hit(w, h, cx, cy, pts[k].0, pts[k].1, filled, px, py)
}

/// Bresenham's walk along a row, from `x` to `x2` with `dx` the whole
/// width, visits every pixel in between.
proof fn lemma_row_walk(x: int, y: int, x2: int, dx: int, sy: int, fuel: nat, px: int)
    requires
        x <= px <= x2,
        dx >= x2 - x,
        dx > 0,
        fuel >= x2 - x,
    ensures
        line_walk(x, y, x2, y, dx, 0, 1, sy, dx, fuel).contains((px, y)),
    decreases fuel,
{
    let wk = line_walk(x, y, x2, y, dx, 0, 1, sy, dx, fuel);
    if px == x {
        assert(wk[0] == (x, y));
    } else {
        assert(fuel > 0 && x != x2);
        let rest = line_walk(x + 1, y, x2, y, dx, 0, 1, sy, dx, (fuel - 1) as nat);
        assert(wk == seq![(x, y)] + rest);
        lemma_row_walk(x + 1, y, x2, dx, sy, (fuel - 1) as nat, px);
        let j = choose|j: int| 0 <= j < rest.len() && rest[j] == (px, y);
        assert(wk[j + 1] == (px, y));
    }
}

/// A row drawn from `(x1, y)` to `(x2, y)` covers every pixel of the row
/// from `x1` to `x2`, when `x1 <= x2`.
proof fn lemma_row_points(x1: int, x2: int, y: int, px: int)
    requires
        x1 <= px <= x2,
    ensures
        line_points(x1, y, x2, y).contains((px, y)),
{
    if x1 == x2 {
        assert(line_points(x1, y, x2, y)[0] == (px, y));
    } else {
        lemma_row_walk(x1, y, x2, x2 - x1, -1, (x2 - x1) as nat, px);
    }
}

/// A row drawn from `x1` to `x2` in a `w` by `h` buffer covers every pixel
/// of the buffer on that row between them.
proof fn lemma_row_drawn(w: int, h: int, x1: int, x2: int, y: int, px: int)
    requires
        x1 <= px <= x2,
        0 <= px < w,
        0 <= y < h,
    ensures
        drawn_line(w, h, x1, y, x2, y, px, y),
{
    lemma_row_points(clamp_below(x1, w), clamp_below(x2, w), y, px);
}

/// Every row offset `d` from `y` to `x` is the `y` or the `x` of some
/// point of the midpoint walk from `(x, y)`; the points of the walk lie in
/// the first octant.
proof fn lemma_walk_covers(x: int, y: int, err: int, d: int) -> (k: int)
    requires
        0 <= y <= d <= x,
    ensures
        0 <= k < circle_walk(x, y, err).len(),
        circle_walk(x, y, err)[k].0 == d || circle_walk(x, y, err)[k].1 == d,
        0 <= circle_walk(x, y, err)[k].1 <= circle_walk(x, y, err)[k].0,
    decreases x - y + 1,
{
    let y1 = if err <= 0 { y + 1 } else { y };
    let e1 = if err <= 0 { err + 2 * (y + 1) + 1 } else { err };
    let x1 = if e1 > 0 { x - 1 } else { x };
    let e2 = if e1 > 0 { e1 - 2 * (x - 1) - 1 } else { e1 };
    let wk = circle_walk(x, y, err);
    assert(wk == seq![(x, y)] + circle_walk(x1, y1, e2));
    if d == y || d == x {
        assert(wk[0] == (x, y));
        0
    } else {
        let k = lemma_walk_covers(x1, y1, e2, d);
        assert(wk[k + 1] == circle_walk(x1, y1, e2)[k]);
        k + 1
    }
}

/// A filled circle of radius `r` around `(cx, cy)` covers its vertical and
/// its horizontal diameter: every pixel of the buffer at most `r` above,
/// below, left or right of the centre is in the circle (see `circle_set`
/// and `draw_circle`).
pub proof fn law_filled_circle_diameters(w: int, h: int, cx: int, cy: int, r: int, d: int)
    requires
        0 <= r,
        -r <= d <= r,
    ensures
        0 <= cx < w && 0 <= cy + d < h ==> circle_set(w, h, cx, cy, circle_walk(r, 0, 0), true)(cx, cy + d),
        0 <= cx + d < w && 0 <= cy < h ==> circle_set(w, h, cx, cy, circle_walk(r, 0, 0), true)(cx + d, cy),
{
    let wk = circle_walk(r, 0, 0);
    if 0 <= cx < w && 0 <= cy + d < h {
        let e = if d < 0 { -d } else { d };
        let k = lemma_walk_covers(r, 0, 0, e);
        let p = wk[k];
        if p.1 == e {
            lemma_row_drawn(w, h, cx - p.0, cx + p.0, cy + d, cx);
        } else {
            lemma_row_drawn(w, h, cx - p.1, cx + p.1, cy + d, cx);
        }
        assert(circle_step_hit(w, h, cx, cy, wk[k].0, wk[k].1, true, cx, cy + d));
    }
    if 0 <= cx + d < w && 0 <= cy < h {
        let _ = lemma_walk_covers(r, 0, 0, 0);
        assert(wk[0] == (r, 0int));
        lemma_row_drawn(w, h, cx - r, cx + r, cy, cx + d);
        assert(circle_step_hit(w, h, cx, cy, wk[0].0, wk[0].1, true, cx + d, cy));
    }
}

/// Every point of the midpoint walk from `(x, y)`, for `y >= 0`, lies in
/// the first octant: `0 <= y <= x`.
proof fn lemma_walk_octant(x: int, y: int, err: int, k: int)
    requires
        0 <= y,
        0 <= k < circle_walk(x, y, err).len(),
    ensures
        0 <= circle_walk(x, y, err)[k].1 <= circle_walk(x, y, err)[k].0,
    decreases x - y + 1,
{
    let y1 = if err <= 0 { y + 1 } else { y };
    let e1 = if err <= 0 { err + 2 * (y + 1) + 1 } else { err };
    let x1 = if e1 > 0 { x - 1 } else { x };
    let e2 = if e1 > 0 { e1 - 2 * (x - 1) - 1 } else { e1 };
    let wk = circle_walk(x, y, err);
    assert(x >= y);
    assert(wk == seq![(x, y)] + circle_walk(x1, y1, e2));
    if k > 0 {
        lemma_walk_octant(x1, y1, e2, k - 1);
        assert(wk[k] == circle_walk(x1, y1, e2)[k - 1]);
    }
}

/// The outline of a circle reaches `r` pixels from the centre in the four
/// axis directions: `(cx ± r, cy)` and `(cx, cy ± r)` are drawn (see
/// `circle_set` and `draw_circle`).
pub proof fn law_outline_circle_extremes(w: int, h: int, cx: int, cy: int, r: int)
    requires
        0 <= r,
    ensures
        circle_set(w, h, cx, cy, circle_walk(r, 0, 0), false)(cx + r, cy),
        circle_set(w, h, cx, cy, circle_walk(r, 0, 0), false)(cx - r, cy),
        circle_set(w, h, cx, cy, circle_walk(r, 0, 0), false)(cx, cy + r),
        circle_set(w, h, cx, cy, circle_walk(r, 0, 0), false)(cx, cy - r),
{
    let wk = circle_walk(r, 0, 0);
    let _ = lemma_walk_covers(r, 0, 0, 0);
    assert(wk[0] == (r, 0int));
    assert(circle_step_hit(w, h, cx, cy, wk[0].0, wk[0].1, false, cx + r, cy));
    assert(circle_step_hit(w, h, cx, cy, wk[0].0, wk[0].1, false, cx - r, cy));
    assert(circle_step_hit(w, h, cx, cy, wk[0].0, wk[0].1, false, cx, cy + r));
    assert(circle_step_hit(w, h, cx, cy, wk[0].0, wk[0].1, false, cx, cy - r));
}

/// A filled circle covers its outline: every pixel of the buffer that the
/// outlined circle of the same centre and radius draws, the filled one
/// draws too (see `circle_set` and `draw_circle`).
pub proof fn law_filled_covers_outline(w: int, h: int, cx: int, cy: int, r: int, px: int, py: int)
    requires
        0 <= r,
        0 <= px < w,
        0 <= py < h,
        circle_set(w, h, cx, cy, circle_walk(r, 0, 0), false)(px, py),
    ensures
        circle_set(w, h, cx, cy, circle_walk(r, 0, 0), true)(px, py),
{
    let wk = circle_walk(r, 0, 0);
    let k = choose|k: int| 0 <= k < wk.len() && #[trigger] circle_step_hit(w, h, cx, cy, wk[k].0, wk[k].1, false, px, py);
    lemma_walk_octant(r, 0, 0, k);
    let x = wk[k].0;
    let y = wk[k].1;
    if py == cy + y || py == cy - y {
        if px == cx + x || px == cx - x {
            lemma_row_drawn(w, h, cx - x, cx + x, py, px);
        } else {
            lemma_row_drawn(w, h, cx - y, cx + y, py, px);
        }
    } else {
        lemma_row_drawn(w, h, cx - y, cx + y, py, px);
    }
    assert(circle_step_hit(w, h, cx, cy, wk[k].0, wk[k].1, true, px, py));
}

/// No paint.
pub open spec fn no_paint() -> spec_fn(int, int) -> Option<u8> {
    |x: int, y: int| None
}

impl Framebuffer {
    /// Width in pixels.
    pub closed spec fn spec_width(&self) -> int {
        self.width as int
    }

    /// Height in pixels.
    pub closed spec fn spec_height(&self) -> int {
        self.height as int
    }

    /// Bits per pixel.
    pub closed spec fn spec_color_depth(&self) -> int {
        self.color_depth as int
    }

    /// Bytes per row.
    pub closed spec fn spec_pitch(&self) -> int {
        self.pitch as int
    }

    /// The device file the buffer is written to.
    pub closed spec fn spec_file_path(&self) -> &'static str {
        self.file_path
    }

    /// The bytes of the buffer.
    pub closed spec fn bytes(&self) -> Seq<u8> {
        self.internal_buffer@
    }

    /// Rows are `width * (color_depth / 8)` bytes, and the buffer holds
    /// `height` rows.
    pub closed spec fn inv(&self) -> bool {
        &&& self.pitch == self.width * (self.color_depth / 8)
        &&& self.buffer_size == self.internal_buffer@.len()
        &&& self.internal_buffer@.len() == self.height * self.pitch
    }

    /// Bytes per pixel.
    pub open spec fn bpp(&self) -> int {
        self.spec_color_depth() / 8
    }

    /// `(x, y)` is a pixel of the buffer.
    pub open spec fn in_bounds(&self, x: int, y: int) -> bool {
        0 <= x < self.spec_width() && 0 <= y < self.spec_height()
    }

    /// The index of the byte of pixel `(x, y)`.
    pub open spec fn pixel_index(&self, x: int, y: int) -> int {
        y * self.spec_pitch() + x * self.bpp()
    }

    /// The colour of pixel `(x, y)`.
    pub open spec fn pixel(&self, x: int, y: int) -> u8 {
        self.bytes()[self.pixel_index(x, y)]
    }

    /// Pixels can be drawn: every pixel has a byte of its own, and the
    /// dimensions fit the signed coordinates of the drawing operations.
    pub open spec fn drawable(&self) -> bool {
        &&& self.inv()
        &&& (self.bpp() > 0 || self.spec_width() == 0 || self.spec_height() == 0)
        &&& self.spec_width() <= isize::MAX
        &&& self.spec_height() <= isize::MAX
    }

    /// Both buffers have the same dimensions, layout and device file.
    pub open spec fn same_geometry(&self, other: &Framebuffer) -> bool {
        &&& self.spec_width() == other.spec_width()
        &&& self.spec_height() == other.spec_height()
        &&& self.spec_color_depth() == other.spec_color_depth()
        &&& self.spec_pitch() == other.spec_pitch()
        &&& self.spec_file_path() == other.spec_file_path()
        &&& self.bytes().len() == other.bytes().len()
    }

    /// The bytes `new` are those of this buffer with every pixel `(x, y)`
    /// that `f` colours set to `f(x, y)`; no other byte differs.
    pub open spec fn repainted(&self, new: Seq<u8>, f: spec_fn(int, int) -> Option<u8>) -> bool {
        &&& new.len() == self.bytes().len()
        &&& forall|x: int, y: int|
            self.in_bounds(x, y) ==> #[trigger] new[self.pixel_index(x, y)] == overlay(
                f,
                x,
                y,
                self.pixel(x, y),
            )
        &&& forall|i: int|
            0 <= i < new.len() && (forall|x: int, y: int|
                self.in_bounds(x, y) ==> #[trigger] self.pixel_index(x, y) != i) ==> #[trigger] new[i]
                == self.bytes()[i]
    }

    /// Creates a black framebuffer of `width` by `height` pixels with
    /// `color_depth` bits per pixel, written to `file_path` on `flush`.
    pub fn new(width: usize, height: usize, color_depth: usize, file_path: &'static str) -> (fb: Self)
        requires
            width * (color_depth / 8) <= usize::MAX,
            height * (width * (color_depth / 8)) <= usize::MAX,
        ensures
            fb.inv(),
            fb.spec_width() == width,
            fb.spec_height() == height,
            fb.spec_color_depth() == color_depth,
            fb.spec_pitch() == width * (color_depth / 8),
            fb.spec_file_path() == file_path,
            fb.bytes().len() == height * (width * (color_depth / 8)),
            forall|i: int| 0 <= i < fb.bytes().len() ==> #[trigger] fb.bytes()[i] == 0,
    {
        let pitch = width * (color_depth / 8);
        let buffer_size: usize = height * pitch;
        let internal_buffer = vec![0u8; buffer_size];
        Framebuffer { width, height, color_depth, pitch, file_path, internal_buffer, buffer_size }
    }

    /// Copies the pixels of a framebuffer of the same dimensions and depth.
    pub fn copy_from(&mut self, other: &Framebuffer)
        requires
            old(self).inv(),
            other.inv(),
            old(self).spec_width() == other.spec_width(),
            old(self).spec_height() == other.spec_height(),
            old(self).spec_color_depth() == other.spec_color_depth(),
        ensures
            final(self).same_geometry(old(self)),
            final(self).inv(),
            final(self).bytes() == other.bytes(),
    {
        let n = self.internal_buffer.len();
        let mut i: usize = 0;
        while i < n
            invariant
                0 <= i <= n,
                n == self.internal_buffer@.len(),
                n == other.internal_buffer@.len(),
                self.width == old(self).width,
                self.height == old(self).height,
                self.color_depth == old(self).color_depth,
                self.pitch == old(self).pitch,
                self.file_path == old(self).file_path,
                self.buffer_size == old(self).buffer_size,
                forall|j: int| 0 <= j < i ==> #[trigger] self.internal_buffer@[j] == other.internal_buffer@[j],
            decreases n - i,
        {
            let b = other.internal_buffer[i];
            self.internal_buffer.set(i, b);
            i = i + 1;
        }
        assert(self.internal_buffer@ =~= other.internal_buffer@);
    }

    /// Copies the pixels of `other` into this buffer with the corner of
    /// `other` at `(x, y)`; `other` must lie inside this buffer.
    pub fn copy_from_at(&mut self, other: &Framebuffer, x: usize, y: usize)
        requires
            old(self).drawable(),
            other.drawable(),
            x + other.spec_width() <= old(self).spec_width(),
            y + other.spec_height() <= old(self).spec_height(),
        ensures
            final(self).same_geometry(old(self)),
            final(self).drawable(),
            old(self).repainted(final(self).bytes(), copy_paint(x as int, y as int, *other)),
    {
        let ghost start = *self;
        let ow = other.width;
        let oh = other.height;
        proof {
            start.lemma_repaint_same(start.bytes(), no_paint(), copy_prefix_paint(x as int, y as int, *other, 0, 0));
        }
        let mut dy: usize = 0;
        while dy < oh
            invariant
                0 <= dy <= oh,
                ow == other.spec_width(),
                oh == other.spec_height(),
                other.drawable(),
                x + ow <= start.spec_width(),
                y + oh <= start.spec_height(),
                self.same_geometry(&start),
                self.drawable(),
                start.repainted(self.bytes(), copy_prefix_paint(x as int, y as int, *other, dy as int, 0)),
            decreases oh - dy,
        {
            let mut dx: usize = 0;
            while dx < ow
                invariant
                    0 <= dx <= ow,
                    0 <= dy < oh,
                    ow == other.spec_width(),
                    oh == other.spec_height(),
                    other.drawable(),
                    x + ow <= start.spec_width(),
                    y + oh <= start.spec_height(),
                    self.same_geometry(&start),
                    self.drawable(),
                    start.repainted(self.bytes(), copy_prefix_paint(x as int, y as int, *other, dy as int, dx as int)),
                decreases ow - dx,
            {
                let ghost mid = *self;
                proof {
                    other.lemma_index(dx as int, dy as int, dx as int, dy as int);
                    self.lemma_put(x + dx, y + dy, other.pixel(dx as int, dy as int));
                }
                let src_index = dy * other.pitch + dx * (other.color_depth / 8);
                let dest_index = (y + dy) * self.pitch + (x + dx) * (self.color_depth / 8);
                let c = other.internal_buffer[src_index];
                self.internal_buffer.set(dest_index, c);
                proof {
                    let f = copy_prefix_paint(x as int, y as int, *other, dy as int, dx as int);
                    let g = point_paint(x + dx, y + dy, c);
                    let h = copy_prefix_paint(x as int, y as int, *other, dy as int, dx + 1);
                    start.lemma_repaint_compose(&mid, self.bytes(), f, g);
                    assert forall|qx: int, qy: int| start.in_bounds(qx, qy) implies #[trigger] paint_over(g, f)(qx, qy) == h(qx, qy) by {
                        if qx == x + dx && qy == y + dy {
                            assert(h(qx, qy) == Some(c));
                        } else {
                            assert(f(qx, qy) == h(qx, qy));
                        }
                    }
                    start.lemma_repaint_same(self.bytes(), paint_over(g, f), h);
                }
                dx = dx + 1;
            }
            proof {
                assert forall|qx: int, qy: int| start.in_bounds(qx, qy) implies #[trigger] copy_prefix_paint(x as int, y as int, *other, dy as int, dx as int)(qx, qy) == copy_prefix_paint(x as int, y as int, *other, dy + 1, 0)(qx, qy) by {}
                start.lemma_repaint_same(self.bytes(), copy_prefix_paint(x as int, y as int, *other, dy as int, dx as int), copy_prefix_paint(x as int, y as int, *other, dy + 1, 0));
            }
            dy = dy + 1;
        }
        proof {
            assert forall|qx: int, qy: int| start.in_bounds(qx, qy) implies #[trigger] copy_prefix_paint(x as int, y as int, *other, dy as int, 0)(qx, qy) == copy_paint(x as int, y as int, *other)(qx, qy) by {}
            start.lemma_repaint_same(self.bytes(), copy_prefix_paint(x as int, y as int, *other, dy as int, 0), copy_paint(x as int, y as int, *other));
        }
    }

    /// The bytes of the buffer.
    pub fn get_buffer(&self) -> (b: &Vec<u8>)
        ensures
            b@ == self.bytes(),
    {
        &self.internal_buffer
    }

    /// Sets every byte of the buffer to `color`.
    pub fn clear(&mut self, color: u8)
        requires
            old(self).inv(),
        ensures
            final(self).same_geometry(old(self)),
            final(self).inv(),
            forall|i: int| 0 <= i < final(self).bytes().len() ==> #[trigger] final(self).bytes()[i] == color,
    {
        let n = self.internal_buffer.len();
        let mut i: usize = 0;
        while i < n
            invariant
                0 <= i <= n,
                n == self.internal_buffer@.len(),
                self.width == old(self).width,
                self.height == old(self).height,
                self.color_depth == old(self).color_depth,
                self.pitch == old(self).pitch,
                self.file_path == old(self).file_path,
                self.buffer_size == old(self).buffer_size,
                self.internal_buffer@.len() == old(self).internal_buffer@.len(),
                forall|j: int| 0 <= j < i ==> #[trigger] self.internal_buffer@[j] == color,
            decreases n - i,
        {
            self.internal_buffer.set(i, color);
            i = i + 1;
        }
    }

    /// Sets pixel `(x, y)` to `color`; pixels outside the buffer are
    /// ignored.
    pub fn draw_pixel(&mut self, x: isize, y: isize, color: u8)
        requires
            old(self).drawable(),
        ensures
            final(self).same_geometry(old(self)),
            final(self).drawable(),
            old(self).repainted(final(self).bytes(), point_paint(x as int, y as int, color)),
    {
        if x >= 0 && x < self.width as isize && y >= 0 && y < self.height as isize {
            let x = x as usize;
            let y = y as usize;
            proof {
                self.lemma_put(x as int, y as int, color);
            }
            let index = y * self.pitch + x * (self.color_depth / 8);
            self.internal_buffer.set(index, color);
        } else {
            proof {
                let f = point_paint(x as int, y as int, color);
                assert forall|px: int, py: int| self.in_bounds(px, py) implies #[trigger] self.bytes()[self.pixel_index(px, py)]
                    == overlay(f, px, py, self.pixel(px, py)) by {}
            }
        }
    }

    /// Fills the rectangle with corner `(x, y)`, `width` pixels wide and
    /// `height` pixels high, with `color`; pixels outside the buffer are
    /// ignored, and a rectangle with a side of zero or less paints nothing.
    pub fn draw_rectangle(&mut self, x: isize, y: isize, width: isize, height: isize, color: u8)
        requires
            old(self).drawable(),
            width > 0 ==> x + width <= isize::MAX,
            height > 0 ==> y + height <= isize::MAX,
        ensures
            final(self).same_geometry(old(self)),
            final(self).drawable(),
            old(self).repainted(
                final(self).bytes(),
                rect_paint(x as int, y as int, width as int, height as int, color),
            ),
    {
        let ghost start = *self;
        proof {
            start.lemma_repaint_same(start.bytes(), no_paint(), rect_prefix_paint(x as int, y as int, width as int, 0, 0, color));
        }
        let mut dy: isize = 0;
        while dy < height
            invariant
                0 <= dy,
                dy <= height || dy == 0,
                height > 0 ==> y + height <= isize::MAX,
                width > 0 ==> x + width <= isize::MAX,
                self.same_geometry(&start),
                self.drawable(),
                start.repainted(self.bytes(), rect_prefix_paint(x as int, y as int, width as int, dy as int, 0, color)),
            decreases height - dy,
        {
            let mut dx: isize = 0;
            while dx < width
                invariant
                    0 <= dx,
                    dx <= width || dx == 0,
                    0 <= dy < height,
                    y + height <= isize::MAX,
                    width > 0 ==> x + width <= isize::MAX,
                    self.same_geometry(&start),
                    self.drawable(),
                    start.repainted(self.bytes(), rect_prefix_paint(x as int, y as int, width as int, dy as int, dx as int, color)),
                decreases width - dx,
            {
                let ghost mid = *self;
                self.draw_pixel(x + dx, y + dy, color);
                proof {
                    let f = rect_prefix_paint(x as int, y as int, width as int, dy as int, dx as int, color);
                    let g = point_paint(x + dx, y + dy, color);
                    start.lemma_repaint_compose(&mid, self.bytes(), f, g);
                    start.lemma_repaint_same(self.bytes(), paint_over(g, f), rect_prefix_paint(x as int, y as int, width as int, dy as int, dx + 1, color));
                }
                dx = dx + 1;
            }
            proof {
                assert(dx == width || width <= 0);
                assert forall|px: int, py: int| start.in_bounds(px, py) implies #[trigger] rect_prefix_paint(x as int, y as int, width as int, dy as int, dx as int, color)(px, py) == rect_prefix_paint(x as int, y as int, width as int, dy + 1, 0, color)(px, py) by {}
                start.lemma_repaint_same(self.bytes(), rect_prefix_paint(x as int, y as int, width as int, dy as int, dx as int, color), rect_prefix_paint(x as int, y as int, width as int, dy + 1, 0, color));
            }
            dy = dy + 1;
        }
        proof {
            let f = rect_prefix_paint(x as int, y as int, width as int, dy as int, 0, color);
            let g = rect_paint(x as int, y as int, width as int, height as int, color);
            assert(dy == height || height <= 0);
            assert forall|px: int, py: int| start.in_bounds(px, py) implies #[trigger] f(px, py) == g(px, py) by {}
            start.lemma_repaint_same(self.bytes(), f, g);
        }
    }

    /// Draws a `width` by `height` bitmap with its corner at `(x, y)`:
    /// pixel `(x + dx, y + dy)` gets `fg` where `bitmap[dy * width + dx]` is
    /// set and `bg` elsewhere; pixels outside the buffer are ignored.
    pub fn draw_bitmap(
        &mut self,
        x: isize,
        y: isize,
        bitmap: &[bool],
        width: usize,
        height: usize,
        fg: u8,
        bg: u8,
    )
        requires
            old(self).drawable(),
            width * height <= bitmap@.len(),
            width <= isize::MAX,
            height <= isize::MAX,
            width > 0 ==> x + width <= isize::MAX,
            height > 0 ==> y + height <= isize::MAX,
        ensures
            final(self).same_geometry(old(self)),
            final(self).drawable(),
            old(self).repainted(
                final(self).bytes(),
                bitmap_paint(x as int, y as int, width as int, height as int, bitmap@, fg, bg),
            ),
    {
        let ghost start = *self;
        let ghost bm = bitmap@;
        let bl = bitmap.len();
        proof {
            start.lemma_repaint_same(start.bytes(), no_paint(), bitmap_prefix_paint(x as int, y as int, width as int, bm, fg, bg, 0, 0));
        }
        let mut dy: usize = 0;
        while dy < height
            invariant
                0 <= dy <= height,
                bl == bitmap@.len(),
                bm == bitmap@,
                width * height <= bl,
                width <= isize::MAX,
                height <= isize::MAX,
                height > 0 ==> y + height <= isize::MAX,
                width > 0 ==> x + width <= isize::MAX,
                self.same_geometry(&start),
                self.drawable(),
                start.repainted(self.bytes(), bitmap_prefix_paint(x as int, y as int, width as int, bm, fg, bg, dy as int, 0)),
            decreases height - dy,
        {
            let mut dx: usize = 0;
            while dx < width
                invariant
                    0 <= dx <= width,
                    0 <= dy < height,
                    bl == bitmap@.len(),
                    bm == bitmap@,
                bm == bitmap@,
                    width * height <= bl,
                    width <= isize::MAX,
                    height <= isize::MAX,
                    y + height <= isize::MAX,
                    width > 0 ==> x + width <= isize::MAX,
                    self.same_geometry(&start),
                    self.drawable(),
                    start.repainted(self.bytes(), bitmap_prefix_paint(x as int, y as int, width as int, bm, fg, bg, dy as int, dx as int)),
                decreases width - dx,
            {
                assert(dy * width + dx < width * height) by (nonlinear_arith)
                    requires
                        dx < width,
                        dy < height,
                ;
                let ghost mid = *self;
                let px = x + dx as isize;
                let py = y + dy as isize;
                let c = if bitmap[dy * width + dx] { fg } else { bg };
                assert(px == x + dx && py == y + dy);
                assert((py - y) * width + (px - x) == dy * width + dx);
                self.draw_pixel(px, py, c);
                proof {
                    let f = bitmap_prefix_paint(x as int, y as int, width as int, bm, fg, bg, dy as int, dx as int);
                    let g = point_paint(px as int, py as int, c);
                    start.lemma_repaint_compose(&mid, self.bytes(), f, g);
                    let h = bitmap_prefix_paint(x as int, y as int, width as int, bm, fg, bg, dy as int, dx + 1);
                    assert forall|qx: int, qy: int| start.in_bounds(qx, qy) implies #[trigger] paint_over(g, f)(qx, qy) == h(qx, qy) by {
                        if qx == px && qy == py {
                            assert((qy - y) * width + (qx - x) == dy * width + dx);
                            assert(bm[dy * width + dx] == bitmap@[dy * width + dx]);
                            assert(h(qx, qy) == Some(c));
                            assert(g(qx, qy) == Some(c));
                        } else {
                            assert(g(qx, qy) is None);
                            assert(f(qx, qy) == h(qx, qy));
                        }
                    }
                    start.lemma_repaint_same(self.bytes(), paint_over(g, f), h);
                }
                dx = dx + 1;
            }
            proof {
                start.lemma_repaint_same(
                    self.bytes(),
                    bitmap_prefix_paint(x as int, y as int, width as int, bm, fg, bg, dy as int, dx as int),
                    bitmap_prefix_paint(x as int, y as int, width as int, bm, fg, bg, dy + 1, 0),
                );
            }
            dy = dy + 1;
        }
        proof {
            start.lemma_repaint_same(
                self.bytes(),
                bitmap_prefix_paint(x as int, y as int, width as int, bm, fg, bg, dy as int, 0),
                bitmap_paint(x as int, y as int, width as int, height as int, bm, fg, bg),
            );
        }
    }

    /// Draws `text` with `font` from `(x, y)`: character `k` fills the cell
    /// of 8 pixels from `x + 8 * k`, and each set pixel of the glyph of its
    /// code gets `color` (see `text_set` and `char_codes`); characters
    /// without a glyph and unset pixels are skipped, pixels outside the
    /// buffer ignored. The text stays within `2^24` pixels of the origin,
    /// where the game's `f32` glyph positions are exact integers.
    pub fn draw_text(&mut self, x: isize, y: isize, text: &str, color: u8, font: &Font)
        requires
            old(self).drawable(),
            font.well_formed(),
            -0x100_0000 <= x,
            x + 8 * text@.len() <= 0x100_0000,
            -0x100_0000 <= y <= 0x100_0000 - 0x100,
        ensures
            final(self).same_geometry(old(self)),
            final(self).drawable(),
            old(self).repainted(
                final(self).bytes(),
                paint_set(text_set(*font, char_codes(text@), x as int, y as int), color),
            ),
    {
        let codes = codes_of(text);
        self.draw_glyphs(x, y, codes.as_slice(), color, font);
    }

    /// Draws the glyphs of the character codes `text` as `draw_text` draws
    /// the characters of a text.
    pub(crate) fn draw_glyphs(&mut self, x: isize, y: isize, text: &[u32], color: u8, font: &Font)
        requires
            old(self).drawable(),
            font.well_formed(),
            -0x4000_0000 <= x <= 0x4000_0000,
            y <= isize::MAX - 0x100,
            text@.len() <= 0x100_0000,
        ensures
            final(self).same_geometry(old(self)),
            final(self).drawable(),
            old(self).repainted(final(self).bytes(), paint_set(text_set(*font, text@, x as int, y as int), color)),
    {
        let ghost start = *self;
        let ghost xs = x as int;
        let ghost ys = y as int;
        let h = font.height as usize;
        let size = font.size as usize;
        proof {
            start.lemma_repaint_same(
                start.bytes(),
                no_paint(),
                paint_set(text_prefix(*font, text@, xs, ys, 0, 0, 0), color),
            );
        }
        let mut k: usize = 0;
        while k < text.len()
            invariant
                0 <= k <= text@.len(),
                text@.len() <= 0x100_0000,
                -0x4000_0000 <= x <= 0x4000_0000,
                y <= isize::MAX - 0x100,
                xs == x,
                ys == y,
                h == font.height,
                size == font.size,
                font.well_formed(),
                self.same_geometry(&start),
                self.drawable(),
                start.repainted(self.bytes(), paint_set(text_prefix(*font, text@, xs, ys, k as int, 0, 0), color)),
            decreases text@.len() - k,
        {
            let c = text[k] as usize;
            if c < size {
                let mut dy: usize = 0;
                while dy < h
                    invariant
                        0 <= dy <= h,
                        0 <= k < text@.len(),
                        c == text@[k as int],
                        c < size,
                        text@.len() <= 0x100_0000,
                        -0x4000_0000 <= x <= 0x4000_0000,
                        y <= isize::MAX - 0x100,
                        xs == x,
                        ys == y,
                        h == font.height,
                        size == font.size,
                        font.well_formed(),
                        self.same_geometry(&start),
                        self.drawable(),
                        start.repainted(
                            self.bytes(),
                            paint_set(text_prefix(*font, text@, xs, ys, k as int, dy as int, 0), color),
                        ),
                    decreases h - dy,
                {
                    proof {
                        assert(c * h + dy < size * h) by (nonlinear_arith)
                            requires
                                c < size,
                                dy < h,
                        ;
                        assert(size * h <= 0xffff * 0xff) by (nonlinear_arith)
                            requires
                                size <= 0xffff,
                                h <= 0xff,
                        ;
                    }
                    let row = font.data[c * h + dy];
                    let mut dx: usize = 0;
                    while dx < 8
                        invariant
                            0 <= dx <= 8,
                            0 <= dy < h,
                            0 <= k < text@.len(),
                            c == text@[k as int],
                            c < size,
                            row == font.data@[c * h + dy],
                            text@.len() <= 0x100_0000,
                            -0x4000_0000 <= x <= 0x4000_0000,
                            y <= isize::MAX - 0x100,
                            xs == x,
                            ys == y,
                            h == font.height,
                            size == font.size,
                            font.well_formed(),
                            self.same_geometry(&start),
                            self.drawable(),
                            start.repainted(
                                self.bytes(),
                                paint_set(text_prefix(*font, text@, xs, ys, k as int, dy as int, dx as int), color),
                            ),
                        decreases 8 - dx,
                    {
                        let px = x + 8 * (k as isize) + dx as isize;
                        let py = y + dy as isize;
                        let set = (row >> ((7 - dx) as u8)) & 1 == 1;
                        let ghost mid = *self;
                        let ghost f = paint_set(text_prefix(*font, text@, xs, ys, k as int, dy as int, dx as int), color);
                        let ghost g2 = paint_set(text_prefix(*font, text@, xs, ys, k as int, dy as int, dx + 1), color);
                        proof {
                            assert((8 * k + dx) / 8 == k && (8 * k + dx) % 8 == dx) by (nonlinear_arith)
                                requires
                                    0 <= dx < 8,
                                    k >= 0,
                            ;
                        }
                        if set {
                            self.draw_pixel(px, py, color);
                            proof {
                                let g = point_paint(px as int, py as int, color);
                                start.lemma_repaint_compose(&mid, self.bytes(), f, g);
                                assert forall|qx: int, qy: int| start.in_bounds(qx, qy) implies #[trigger] paint_over(g, f)(qx, qy)
                                    == g2(qx, qy) by {
                                    let kk = (qx - xs) / 8;
                                    let ddx = (qx - xs) % 8;
                                    assert(qx - xs == 8 * kk + ddx && 0 <= ddx < 8) by (nonlinear_arith)
                                        requires
                                            kk == (qx - xs) / 8,
                                            ddx == (qx - xs) % 8,
                                    ;
                                    if qx == px && qy == py {
                                        assert(text_pixel(*font, text@, xs, ys, qx, qy));
                                    }
                                }
                                start.lemma_repaint_same(self.bytes(), paint_over(g, f), g2);
                            }
                        } else {
                            proof {
                                assert forall|qx: int, qy: int| start.in_bounds(qx, qy) implies #[trigger] f(qx, qy)
                                    == g2(qx, qy) by {
                                    let kk = (qx - xs) / 8;
                                    let ddx = (qx - xs) % 8;
                                    assert(qx - xs == 8 * kk + ddx && 0 <= ddx < 8) by (nonlinear_arith)
                                        requires
                                            kk == (qx - xs) / 8,
                                            ddx == (qx - xs) % 8,
                                    ;
                                    if kk == k && ddx == dx && qy - ys == dy {
                                        assert(qx == px);
                                        assert(!text_pixel(*font, text@, xs, ys, qx, qy));
                                    }
                                }
                                start.lemma_repaint_same(self.bytes(), f, g2);
                            }
                        }
                        dx = dx + 1;
                    }
                    proof {
                        start.lemma_repaint_same(
                            self.bytes(),
                            paint_set(text_prefix(*font, text@, xs, ys, k as int, dy as int, 8), color),
                            paint_set(text_prefix(*font, text@, xs, ys, k as int, dy + 1, 0), color),
                        );
                    }
                    dy = dy + 1;
                }
                proof {
                    start.lemma_repaint_same(
                        self.bytes(),
                        paint_set(text_prefix(*font, text@, xs, ys, k as int, h as int, 0), color),
                        paint_set(text_prefix(*font, text@, xs, ys, k + 1, 0, 0), color),
                    );
                }
            } else {
                proof {
                    start.lemma_repaint_same(
                        self.bytes(),
                        paint_set(text_prefix(*font, text@, xs, ys, k as int, 0, 0), color),
                        paint_set(text_prefix(*font, text@, xs, ys, k + 1, 0, 0), color),
                    );
                }
            }
            k = k + 1;
        }
        proof {
            start.lemma_repaint_same(
                self.bytes(),
                paint_set(text_prefix(*font, text@, xs, ys, k as int, 0, 0), color),
                paint_set(text_set(*font, text@, xs, ys), color),
            );
        }
    }

    /// Draws the line from `(x1, y1)` to `(x2, y2)` with Bresenham's
    /// algorithm after lowering coordinates past the right or bottom edge to
    /// the last column or row (see `line_points`); pixels outside the buffer
    /// are ignored.
    #[verifier::rlimit(40)]
    pub fn draw_line(&mut self, x1: isize, y1: isize, x2: isize, y2: isize, color: u8)
        requires
            old(self).drawable(),
        ensures
            final(self).same_geometry(old(self)),
            final(self).drawable(),
            old(self).repainted(
                final(self).bytes(),
                points_paint(
                    line_points(
                        clamp_below(x1 as int, old(self).spec_width()),
                        clamp_below(y1 as int, old(self).spec_height()),
                        clamp_below(x2 as int, old(self).spec_width()),
                        clamp_below(y2 as int, old(self).spec_height()),
                    ),
                    color,
                ),
            ),
    {
        let ghost start = *self;
        let mut x1 = x1;
        let mut y1 = y1;
        let mut x2 = x2;
        let mut y2 = y2;
        if x1 >= self.width as isize {
            x1 = self.width as isize - 1;
        }
        if y1 >= self.height as isize {
            y1 = self.height as isize - 1;
        }
        if x2 >= self.width as isize {
            x2 = self.width as isize - 1;
        }
        if y2 >= self.height as isize {
            y2 = self.height as isize - 1;
        }
        let dx: i128 = if x2 >= x1 { x2 as i128 - x1 as i128 } else { x1 as i128 - x2 as i128 };
        let dy: i128 = if y2 >= y1 { y2 as i128 - y1 as i128 } else { y1 as i128 - y2 as i128 };
        let sx: isize = if x1 < x2 { 1 } else { -1 };
        let sy: isize = if y1 < y2 { 1 } else { -1 };
        let mut err: i128 = dx - dy;
        let mut x = x1;
        let mut y = y1;
        let ghost full = line_points(x1 as int, y1 as int, x2 as int, y2 as int);
        let ghost mut drawn: Seq<(int, int)> = Seq::empty();
        let ghost mut i: int = 0;
        let ghost mut j: int = 0;
        let ghost mut fuel: nat = (dx + dy) as nat;
        proof {
            assert(full == line_walk(x as int, y as int, x2 as int, y2 as int, dx as int, dy as int, sx as int, sy as int, err as int, fuel));
            assert(drawn + full =~= full);
            start.lemma_repaint_same(start.bytes(), no_paint(), points_paint(drawn, color));
        }
        loop
            invariant_except_break
                drawn + line_walk(x as int, y as int, x2 as int, y2 as int, dx as int, dy as int, sx as int, sy as int, err as int, fuel) == full,
            invariant
                dx == abs_int(x2 - x1),
                dy == abs_int(y2 - y1),
                sx == (if x1 < x2 { 1int } else { -1int }),
                sy == (if y1 < y2 { 1int } else { -1int }),
                0 <= i <= dx,
                0 <= j <= dy,
                x == x1 + sx * i,
                y == y1 + sy * j,
                err == dx - dy - i * dy + j * dx,
                -2 * dy <= err <= 2 * dx,
                fuel >= dx + dy - i - j,
                self.same_geometry(&start),
                self.drawable(),
                start.repainted(self.bytes(), points_paint(drawn, color)),
            ensures
                start.repainted(self.bytes(), points_paint(full, color)),
            decreases fuel,
        {
            let ghost mid = *self;
            self.draw_pixel(x, y, color);
            proof {
                let f = points_paint(drawn, color);
                let g = point_paint(x as int, y as int, color);
                let nd = drawn.push((x as int, y as int));
                start.lemma_repaint_compose(&mid, self.bytes(), f, g);
                assert forall|qx: int, qy: int| start.in_bounds(qx, qy) implies #[trigger] paint_over(g, f)(qx, qy) == points_paint(nd, color)(qx, qy) by {
                    if qx == x && qy == y {
                        assert(nd[drawn.len() as int] == (qx, qy));
                    } else if drawn.contains((qx, qy)) {
                        let k = choose|k: int| 0 <= k < drawn.len() && drawn[k] == (qx, qy);
                        assert(nd[k] == (qx, qy));
                    } else if nd.contains((qx, qy)) {
                        let k = choose|k: int| 0 <= k < nd.len() && nd[k] == (qx, qy);
                        assert(k < drawn.len());
                        assert(drawn[k] == (qx, qy));
                    }
                }
                start.lemma_repaint_same(self.bytes(), paint_over(g, f), points_paint(nd, color));
                drawn = nd;
            }
            proof {
                assert(sx * i == sx * dx ==> i == dx) by (nonlinear_arith)
                    requires
                        sx == 1 || sx == -1,
                ;
                assert(sy * j == sy * dy ==> j == dy) by (nonlinear_arith)
                    requires
                        sy == 1 || sy == -1,
                ;
                assert(x2 == x1 + sx * dx) by (nonlinear_arith)
                    requires
                        dx == abs_int(x2 - x1),
                        sx == (if x1 < x2 { 1int } else { -1int }),
                ;
                assert(y2 == y1 + sy * dy) by (nonlinear_arith)
                    requires
                        dy == abs_int(y2 - y1),
                        sy == (if y1 < y2 { 1int } else { -1int }),
                ;
            }
            if x == x2 && y == y2 {
                proof {
                    let w = line_walk(x as int, y as int, x2 as int, y2 as int, dx as int, dy as int, sx as int, sy as int, err as int, fuel);
                    assert(w == seq![(x as int, y as int)]);
                    assert(drawn =~= full);
                }
                break;
            }
            proof {
                // not at the end: some step remains, and steps never pass the end point
                assert(i < dx || j < dy);
                if i == dx {
                    assert(dx * (1 + j - dy) <= 0) by (nonlinear_arith)
                        requires
                            j < dy,
                            dx >= 0,
                    ;
                    assert(err == dx * (1 + j - dy) - dy) by (nonlinear_arith)
                        requires
                            err == dx - dy - i * dy + j * dx,
                            i == dx,
                    ;
                }
                if j == dy {
                    assert(dy * (1 + i) <= dy * dx) by (nonlinear_arith)
                        requires
                            i < dx,
                            dy >= 0,
                    ;
                    assert(err >= dx) by (nonlinear_arith)
                        requires
                            err == dx - dy - i * dy + j * dx,
                            j == dy,
                            i < dx,
                            dy >= 0,
                    ;
                }
                assert(i == dx ==> 2 * err <= -dy);
                assert(j == dy ==> 2 * err >= dx);
                assert(fuel > 0);
            }
            let ghost old_err = err;
            let err2 = err * 2;
            if err2 > -dy {
                proof {
                    assert(i < dx);
                    assert(x1 + sx * (i + 1) == x + sx) by (nonlinear_arith)
                        requires
                            x == x1 + sx * i,
                    ;
                }
                err = err - dy;
                x = x + sx;
                proof {
                    assert(err == dx - dy - (i + 1) * dy + j * dx) by (nonlinear_arith)
                        requires
                            err == old_err - dy,
                            old_err == dx - dy - i * dy + j * dx,
                    ;
                    assert(x1 + sx * (i + 1) == x1 + sx * i + sx) by (nonlinear_arith);
                    i = i + 1;
                }
            }
            if err2 < dx {
                proof {
                    assert(j < dy);
                    assert(y1 + sy * (j + 1) == y + sy) by (nonlinear_arith)
                        requires
                            y == y1 + sy * j,
                    ;
                }
                let ghost e1 = err;
                err = err + dx;
                y = y + sy;
                proof {
                    assert(err == dx - dy - i * dy + (j + 1) * dx) by (nonlinear_arith)
                        requires
                            err == e1 + dx,
                            e1 == dx - dy - i * dy + j * dx,
                    ;
                    assert(y1 + sy * (j + 1) == y1 + sy * j + sy) by (nonlinear_arith);
                    j = j + 1;
                }
            }
            proof {
                fuel = (fuel - 1) as nat;
            }
        }
    }

    /// Painting one set of pixels and then another in the same colour paints
    /// their union.
    pub proof fn lemma_repaint_union(
        &self,
        mid: &Framebuffer,
        new: Seq<u8>,
        s1: spec_fn(int, int) -> bool,
        s2: spec_fn(int, int) -> bool,
        c: u8,
    )
        requires
            self.same_geometry(mid),
            self.repainted(mid.bytes(), paint_set(s1, c)),
            mid.repainted(new, paint_set(s2, c)),
        ensures
            self.repainted(new, paint_set(union_set(s1, s2), c)),
    {
        self.lemma_repaint_compose(mid, new, paint_set(s1, c), paint_set(s2, c));
        assert forall|x: int, y: int| self.in_bounds(x, y) implies #[trigger] paint_over(paint_set(s2, c), paint_set(s1, c))(x, y)
            == paint_set(union_set(s1, s2), c)(x, y) by {}
        self.lemma_repaint_same(new, paint_over(paint_set(s2, c), paint_set(s1, c)), paint_set(union_set(s1, s2), c));
    }

    /// Draws the eight mirror images of `(x, y)` around `(cx, cy)`.
    fn draw_octants(&mut self, cx: isize, cy: isize, x: isize, y: isize, color: u8)
        requires
            old(self).drawable(),
            coord_ok(cx + x),
            coord_ok(cx - x),
            coord_ok(cx + y),
            coord_ok(cx - y),
            coord_ok(cy + x),
            coord_ok(cy - x),
            coord_ok(cy + y),
            coord_ok(cy - y),
        ensures
            final(self).same_geometry(old(self)),
            final(self).drawable(),
            old(self).repainted(
                final(self).bytes(),
                paint_set(|px: int, py: int| octant_hit(cx as int, cy as int, x as int, y as int, px, py), color),
            ),
    {
        let ghost start = *self;
        let ghost mut acc = empty_set();
        proof {
            start.lemma_repaint_same(start.bytes(), no_paint(), paint_set(acc, color));
        }
        let ghost m = *self;
        self.draw_pixel(cx + x, cy + y, color);
        proof {
            m.lemma_repaint_same(self.bytes(), point_paint(cx + x, cy + y, color), paint_set(point_set(cx + x, cy + y), color));
            start.lemma_repaint_union(&m, self.bytes(), acc, point_set(cx + x, cy + y), color);
            acc = union_set(acc, point_set(cx + x, cy + y));
        }
        let ghost m = *self;
        self.draw_pixel(cx - x, cy + y, color);
        proof {
            m.lemma_repaint_same(self.bytes(), point_paint(cx - x, cy + y, color), paint_set(point_set(cx - x, cy + y), color));
            start.lemma_repaint_union(&m, self.bytes(), acc, point_set(cx - x, cy + y), color);
            acc = union_set(acc, point_set(cx - x, cy + y));
        }
        let ghost m = *self;
        self.draw_pixel(cx + y, cy + x, color);
        proof {
            m.lemma_repaint_same(self.bytes(), point_paint(cx + y, cy + x, color), paint_set(point_set(cx + y, cy + x), color));
            start.lemma_repaint_union(&m, self.bytes(), acc, point_set(cx + y, cy + x), color);
            acc = union_set(acc, point_set(cx + y, cy + x));
        }
        let ghost m = *self;
        self.draw_pixel(cx - y, cy + x, color);
        proof {
            m.lemma_repaint_same(self.bytes(), point_paint(cx - y, cy + x, color), paint_set(point_set(cx - y, cy + x), color));
            start.lemma_repaint_union(&m, self.bytes(), acc, point_set(cx - y, cy + x), color);
            acc = union_set(acc, point_set(cx - y, cy + x));
        }
        let ghost m = *self;
        self.draw_pixel(cx + x, cy - y, color);
        proof {
            m.lemma_repaint_same(self.bytes(), point_paint(cx + x, cy - y, color), paint_set(point_set(cx + x, cy - y), color));
            start.lemma_repaint_union(&m, self.bytes(), acc, point_set(cx + x, cy - y), color);
            acc = union_set(acc, point_set(cx + x, cy - y));
        }
        let ghost m = *self;
        self.draw_pixel(cx - x, cy - y, color);
        proof {
            m.lemma_repaint_same(self.bytes(), point_paint(cx - x, cy - y, color), paint_set(point_set(cx - x, cy - y), color));
            start.lemma_repaint_union(&m, self.bytes(), acc, point_set(cx - x, cy - y), color);
            acc = union_set(acc, point_set(cx - x, cy - y));
        }
        let ghost m = *self;
        self.draw_pixel(cx + y, cy - x, color);
        proof {
            m.lemma_repaint_same(self.bytes(), point_paint(cx + y, cy - x, color), paint_set(point_set(cx + y, cy - x), color));
            start.lemma_repaint_union(&m, self.bytes(), acc, point_set(cx + y, cy - x), color);
            acc = union_set(acc, point_set(cx + y, cy - x));
        }
        let ghost m = *self;
        self.draw_pixel(cx - y, cy - x, color);
        proof {
            m.lemma_repaint_same(self.bytes(), point_paint(cx - y, cy - x, color), paint_set(point_set(cx - y, cy - x), color));
            start.lemma_repaint_union(&m, self.bytes(), acc, point_set(cx - y, cy - x), color);
            acc = union_set(acc, point_set(cx - y, cy - x));
            start.lemma_repaint_same(
                self.bytes(),
                paint_set(acc, color),
                paint_set(|px: int, py: int| octant_hit(cx as int, cy as int, x as int, y as int, px, py), color),
            );
        }
    }

    /// Draws the four horizontal spans through the mirror images of
    /// `(x, y)` around `(cx, cy)`.
    fn draw_spans(&mut self, cx: isize, cy: isize, x: isize, y: isize, color: u8)
        requires
            old(self).drawable(),
            coord_ok(cx + x),
            coord_ok(cx - x),
            coord_ok(cx + y),
            coord_ok(cx - y),
            coord_ok(cy + x),
            coord_ok(cy - x),
            coord_ok(cy + y),
            coord_ok(cy - y),
        ensures
            final(self).same_geometry(old(self)),
            final(self).drawable(),
            old(self).repainted(
                final(self).bytes(),
                paint_set(
                    |px: int, py: int|
                        span_hit(
                            old(self).spec_width(),
                            old(self).spec_height(),
                            cx as int,
                            cy as int,
                            x as int,
                            y as int,
                            px,
                            py,
                        ),
                    color,
                ),
            ),
    {
        let ghost start = *self;
        let ghost w = start.spec_width();
        let ghost h = start.spec_height();
        let ghost mut acc = empty_set();
        proof {
            start.lemma_repaint_same(start.bytes(), no_paint(), paint_set(acc, color));
        }
        let ghost m = *self;
        self.draw_line(cx - x, cy + y, cx + x, cy + y, color);
        proof {
            let l = |px: int, py: int| drawn_line(w, h, cx - x, cy + y, cx + x, cy + y, px, py);
            m.lemma_repaint_same(self.bytes(), points_paint(line_points(clamp_below(cx - x, w), clamp_below(cy + y, h), clamp_below(cx + x, w), clamp_below(cy + y, h)), color), paint_set(l, color));
            start.lemma_repaint_union(&m, self.bytes(), acc, l, color);
            acc = union_set(acc, l);
        }
        let ghost m = *self;
        self.draw_line(cx - x, cy - y, cx + x, cy - y, color);
        proof {
            let l = |px: int, py: int| drawn_line(w, h, cx - x, cy - y, cx + x, cy - y, px, py);
            m.lemma_repaint_same(self.bytes(), points_paint(line_points(clamp_below(cx - x, w), clamp_below(cy - y, h), clamp_below(cx + x, w), clamp_below(cy - y, h)), color), paint_set(l, color));
            start.lemma_repaint_union(&m, self.bytes(), acc, l, color);
            acc = union_set(acc, l);
        }
        let ghost m = *self;
        self.draw_line(cx - y, cy + x, cx + y, cy + x, color);
        proof {
            let l = |px: int, py: int| drawn_line(w, h, cx - y, cy + x, cx + y, cy + x, px, py);
            m.lemma_repaint_same(self.bytes(), points_paint(line_points(clamp_below(cx - y, w), clamp_below(cy + x, h), clamp_below(cx + y, w), clamp_below(cy + x, h)), color), paint_set(l, color));
            start.lemma_repaint_union(&m, self.bytes(), acc, l, color);
            acc = union_set(acc, l);
        }
        let ghost m = *self;
        self.draw_line(cx - y, cy - x, cx + y, cy - x, color);
        proof {
            let l = |px: int, py: int| drawn_line(w, h, cx - y, cy - x, cx + y, cy - x, px, py);
            m.lemma_repaint_same(self.bytes(), points_paint(line_points(clamp_below(cx - y, w), clamp_below(cy - x, h), clamp_below(cx + y, w), clamp_below(cy - x, h)), color), paint_set(l, color));
            start.lemma_repaint_union(&m, self.bytes(), acc, l, color);
            acc = union_set(acc, l);
            start.lemma_repaint_same(
                self.bytes(),
                paint_set(acc, color),
                paint_set(|px: int, py: int| span_hit(w, h, cx as int, cy as int, x as int, y as int, px, py), color),
            );
        }
    }

    /// Draws the circle of `radius` around `(cx, cy)` with the midpoint
    /// algorithm: for each point `(x, y)` of the walk `circle_walk(radius,
    /// 0, 0)` it draws the eight mirror images of the point, or, when
    /// `filled`, the four horizontal lines between them (see
    /// `circle_set`); pixels outside the buffer are ignored. Every
    /// coordinate it computes, `cx ± radius` and `cy ± radius` at most, and
    /// its error term, within `2 * radius + 5` of zero, are `isize` values.
    pub fn draw_circle(&mut self, cx: isize, cy: isize, radius: usize, color: u8, filled: bool)
        requires
            old(self).drawable(),
            2 * radius + 5 <= isize::MAX,
            isize::MIN <= cx - radius,
            cx + radius <= isize::MAX,
            isize::MIN <= cy - radius,
            cy + radius <= isize::MAX,
        ensures
            final(self).same_geometry(old(self)),
            final(self).drawable(),
            old(self).repainted(
                final(self).bytes(),
                paint_set(
                    circle_set(
                        old(self).spec_width(),
                        old(self).spec_height(),
                        cx as int,
                        cy as int,
                        circle_walk(radius as int, 0, 0),
                        filled,
                    ),
                    color,
                ),
            ),
    {
        let ghost start = *self;
        let ghost w = start.spec_width();
        let ghost h = start.spec_height();
        let ghost r = radius as int;
        let mut x = radius as isize;
        let mut y: isize = 0;
        let mut err: isize = 0;
        let ghost full = circle_walk(r, 0, 0);
        let ghost mut drawn: Seq<(int, int)> = Seq::empty();
        proof {
            assert(drawn + full =~= full);
            assert forall|px: int, py: int| start.in_bounds(px, py) implies #[trigger] no_paint()(px, py)
                == paint_set(circle_set(w, h, cx as int, cy as int, drawn, filled), color)(px, py) by {}
            start.lemma_repaint_same(start.bytes(), no_paint(), paint_set(circle_set(w, h, cx as int, cy as int, drawn, filled), color));
        }
        while x >= y
            invariant
                w == start.spec_width(),
                h == start.spec_height(),
                r == radius,
                2 * radius + 5 <= isize::MAX,
                isize::MIN <= cx - radius,
                cx + radius <= isize::MAX,
                isize::MIN <= cy - radius,
                cy + radius <= isize::MAX,
                -(2 * r + 3) <= err <= 2 * r + 5,
                drawn + circle_walk(x as int, y as int, err as int) == full,
                err == x * x + y * y + 2 * y - r * r,
                -1 <= x <= r,
                0 <= y <= r + 1,
                self.same_geometry(&start),
                self.drawable(),
                start.repainted(self.bytes(), paint_set(circle_set(w, h, cx as int, cy as int, drawn, filled), color)),
            decreases (if x >= y { x - y + 1 } else { 0 }),
        {
            let ghost m = *self;
            let ghost step = |px: int, py: int| circle_step_hit(w, h, cx as int, cy as int, x as int, y as int, filled, px, py);
            if filled {
                self.draw_spans(cx, cy, x, y, color);
            } else {
                self.draw_octants(cx, cy, x, y, color);
            }
            proof {
                if filled {
                    m.lemma_repaint_same(self.bytes(), paint_set(|px: int, py: int| span_hit(w, h, cx as int, cy as int, x as int, y as int, px, py), color), paint_set(step, color));
                } else {
                    m.lemma_repaint_same(self.bytes(), paint_set(|px: int, py: int| octant_hit(cx as int, cy as int, x as int, y as int, px, py), color), paint_set(step, color));
                }
                let before = circle_set(w, h, cx as int, cy as int, drawn, filled);
                start.lemma_repaint_union(&m, self.bytes(), before, step, color);
                let nd = drawn.push((x as int, y as int));
                let after = circle_set(w, h, cx as int, cy as int, nd, filled);
                assert forall|px: int, py: int| start.in_bounds(px, py) implies #[trigger] paint_set(union_set(before, step), color)(px, py)
                    == paint_set(after, color)(px, py) by {
                    if before(px, py) {
                        let k = choose|k: int| 0 <= k < drawn.len() && #[trigger] circle_step_hit(w, h, cx as int, cy as int, drawn[k].0, drawn[k].1, filled, px, py);
                        assert(nd[k] == drawn[k]);
                        assert(circle_step_hit(w, h, cx as int, cy as int, nd[k].0, nd[k].1, filled, px, py));
                    } else if step(px, py) {
                        assert(nd[drawn.len() as int] == (x as int, y as int));
                        assert(circle_step_hit(w, h, cx as int, cy as int, nd[drawn.len() as int].0, nd[drawn.len() as int].1, filled, px, py));
                    } else if after(px, py) {
                        let k = choose|k: int| 0 <= k < nd.len() && #[trigger] circle_step_hit(w, h, cx as int, cy as int, nd[k].0, nd[k].1, filled, px, py);
                        if k < drawn.len() {
                            assert(nd[k] == drawn[k]);
                            assert(circle_step_hit(w, h, cx as int, cy as int, drawn[k].0, drawn[k].1, filled, px, py));
                        }
                    }
                }
                start.lemma_repaint_same(self.bytes(), paint_set(union_set(before, step), color), paint_set(after, color));
                let rest = circle_walk(x as int, y as int, err as int);
                assert(rest == seq![(x as int, y as int)] + circle_walk(
                    if (if err <= 0 { err + 2 * (y + 1) + 1 } else { err as int }) > 0 { x - 1 } else { x as int },
                    if err <= 0 { y + 1 } else { y as int },
                    if (if err <= 0 { err + 2 * (y + 1) + 1 } else { err as int }) > 0 {
                        (if err <= 0 { err + 2 * (y + 1) + 1 } else { err as int }) - 2 * (x - 1) - 1
                    } else {
                        (if err <= 0 { err + 2 * (y + 1) + 1 } else { err as int })
                    },
                ));
                drawn = nd;
            }
            let ghost xo = x as int;
            let ghost yo = y as int;
            let ghost eo = err as int;
            proof {
                if xo == 0 {
                    assert(eo <= 0) by (nonlinear_arith)
                        requires
                            xo == 0,
                            yo == 0,
                            eo == xo * xo + yo * yo + 2 * yo - r * r,
                    ;
                }
            }
            if err <= 0 {
                y = y + 1;
                err = err + 2 * y + 1;
            }
            let ghost e1 = err as int;
            let ghost y1 = y as int;
            if err > 0 {
                x = x - 1;
                err = err - 2 * x - 1;
            }
            proof {
                assert(e1 == xo * xo + y1 * y1 + 2 * y1 - r * r) by (nonlinear_arith)
                    requires
                        eo == xo * xo + yo * yo + 2 * yo - r * r,
                        (eo <= 0 && y1 == yo + 1 && e1 == eo + 2 * y1 + 1) || (eo > 0 && y1 == yo && e1 == eo),
                ;
                assert(err == x * x + y * y + 2 * y - r * r) by (nonlinear_arith)
                    requires
                        e1 == xo * xo + y1 * y1 + 2 * y1 - r * r,
                        y == y1,
                        (e1 > 0 && x == xo - 1 && err == e1 - 2 * x - 1) || (e1 <= 0 && x == xo && err == e1),
                ;
                assert(drawn + circle_walk(x as int, y as int, err as int) =~= full);
            }
        }
        proof {
            assert(circle_walk(x as int, y as int, err as int) == Seq::<(int, int)>::empty());
            assert(drawn =~= full);
        }
    }

    /// Index facts for the pixels of a drawable buffer.
    pub proof fn lemma_index(&self, x1: int, y1: int, x2: int, y2: int)
        requires
            self.drawable(),
            self.in_bounds(x1, y1),
            self.in_bounds(x2, y2),
        ensures
            0 <= self.pixel_index(x1, y1) < self.bytes().len(),
            self.pixel_index(x1, y1) == self.pixel_index(x2, y2) ==> x1 == x2 && y1 == y2,
    {
        lemma_pixel_layout(self.width as int, self.height as int, self.bpp(), x1, y1, x2, y2);
    }

    /// Painting nothing leaves the buffer as it is.
    pub proof fn lemma_repaint_none(&self)
        ensures
            self.repainted(self.bytes(), no_paint()),
    {
    }

    /// A buffer repainted with `f` and then with `g` is repainted with `g`
    /// over `f`.
    pub proof fn lemma_repaint_compose(
        &self,
        mid: &Framebuffer,
        new: Seq<u8>,
        f: spec_fn(int, int) -> Option<u8>,
        g: spec_fn(int, int) -> Option<u8>,
    )
        requires
            self.same_geometry(mid),
            self.repainted(mid.bytes(), f),
            mid.repainted(new, g),
        ensures
            self.repainted(new, paint_over(g, f)),
    {
        assert forall|i: int|
            0 <= i < new.len() && (forall|x: int, y: int|
                self.in_bounds(x, y) ==> #[trigger] self.pixel_index(x, y) != i) implies #[trigger] new[i]
            == self.bytes()[i] by {
            assert forall|x: int, y: int| mid.in_bounds(x, y) implies #[trigger] mid.pixel_index(x, y) != i by {
                assert(self.pixel_index(x, y) != i);
            }
        }
        assert forall|x: int, y: int| self.in_bounds(x, y) implies #[trigger] new[self.pixel_index(x, y)]
            == overlay(paint_over(g, f), x, y, self.pixel(x, y)) by {
            assert(mid.in_bounds(x, y));
            assert(mid.pixel_index(x, y) == self.pixel_index(x, y));
            assert(mid.pixel(x, y) == overlay(f, x, y, self.pixel(x, y)));
        }
    }

    /// Writing colour `c` to the byte of pixel `(x, y)` paints that pixel.
    pub proof fn lemma_put(&self, x: int, y: int, c: u8)
        requires
            self.drawable(),
            self.in_bounds(x, y),
        ensures
            0 <= self.pixel_index(x, y) < self.bytes().len(),
            self.repainted(self.bytes().update(self.pixel_index(x, y), c), point_paint(x, y, c)),
    {
        self.lemma_index(x, y, x, y);
        let new = self.bytes().update(self.pixel_index(x, y), c);
        assert forall|px: int, py: int| self.in_bounds(px, py) implies #[trigger] new[self.pixel_index(px, py)]
            == overlay(point_paint(x, y, c), px, py, self.pixel(px, py)) by {
            self.lemma_index(px, py, x, y);
        }
    }

    /// Two paints that agree on every pixel repaint alike.
    pub proof fn lemma_repaint_same(&self, new: Seq<u8>, f: spec_fn(int, int) -> Option<u8>, g: spec_fn(int, int) -> Option<u8>)
        requires
            self.repainted(new, f),
            forall|x: int, y: int| self.in_bounds(x, y) ==> #[trigger] f(x, y) == g(x, y),
        ensures
            self.repainted(new, g),
    {
        assert forall|x: int, y: int| self.in_bounds(x, y) implies #[trigger] new[self.pixel_index(x, y)]
            == overlay(g, x, y, self.pixel(x, y)) by {
            assert(f(x, y) == g(x, y));
        }
    }
}

} // verus!
