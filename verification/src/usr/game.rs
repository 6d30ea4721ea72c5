//! The game programs, and the first graphics demo: a rectangle that the
//! keyboard and the mouse move over a 320 by 200 screen.
//!
//! The demo's arithmetic on coordinates is unsigned and wraps around: a
//! step left from a column below 5 lands near `usize::MAX`, and such a
//! column, moved by the mouse, is first cut to 32 bits.
pub mod bullet;
pub mod main;
pub mod map;
pub mod network;
pub mod tanks;

use vstd::prelude::*;

verus! {

/// Screen width of the demo, in pixels.
pub const WIDTH: usize = 320;

/// Screen height of the demo, in pixels.
pub const HEIGHT: usize = 200;

/// `v` brought into the range of `usize` by adding or taking away
/// `usize::MAX + 1`, for `v` at most one range away from it.
pub open spec fn wrapped(v: int) -> int {
    if v < 0 {
        v + usize::MAX + 1
    } else if v > usize::MAX {
        v - usize::MAX - 1
    } else {
        v
    }
}

/// Where a coordinate `p` lands when the mouse moves it by `d` on a screen
/// `bound` pixels wide: the sum is taken in 32 bits (`p` cut to a signed
/// 32-bit number); below 0 gives 0, beyond `bound` gives `bound - 1`, and
/// otherwise `p` moves by `d` (wrapping).
pub open spec fn moved(p: usize, d: i8, bound: usize) -> int {
    let s = vstd::wrapping::i32_specs::wrapping_add(p as i32, d as i32);
    if s < 0 {
        0
    } else if s > bound {
        bound - 1
    } else {
        wrapped(p + d)
    }
}

/// For a coordinate that fits in 31 bits with room for a mouse step, the
/// move is the plain sum kept on the screen.
pub proof fn lemma_moved_small(p: usize, d: i8, bound: usize)
    requires
        p <= i32::MAX - 128,
        bound <= i32::MAX,
    ensures
        moved(p, d, bound) == (if p + d < 0 {
            0
        } else if p + d > bound {
            bound - 1
        } else {
            p + d
        }),
{
}

/// A filled rectangle: top-left corner, size and colour.
#[derive(Clone, Copy, PartialEq, Eq, Structural, Debug)]
pub struct Rectangle {
    pub x: usize,
    pub y: usize,
    pub width: usize,
    pub height: usize,
    pub color: u8,
}

impl Rectangle {
    /// A rectangle at `(x, y)` of the given size and colour.
    pub fn new(x: usize, y: usize, width: usize, height: usize, color: u8) -> (r: Self)
        ensures
            r == (Rectangle { x, y, width, height, color }),
    {
        Self { x, y, width, height, color }
    }

    /// Moves the rectangle 5 pixels left, unless it touches the left edge.
    pub fn move_left(&mut self)
        ensures
            *final(self) == (Rectangle {
                x: (if old(self).x > 0 {
                    wrapped(old(self).x - 5)
                } else {
                    old(self).x as int
                }) as usize,
                ..*old(self)
            }),
    {
        if self.x > 0 {
            self.x = self.x.wrapping_sub(5);
        }
    }

    /// Moves the rectangle 5 pixels right, unless its right side reaches
    /// the right edge.
    pub fn move_right(&mut self)
        ensures
            *final(self) == (Rectangle {
                x: (if wrapped(old(self).x + old(self).width) < WIDTH {
                    wrapped(old(self).x + 5)
                } else {
                    old(self).x as int
                }) as usize,
                ..*old(self)
            }),
    {
        if self.x.wrapping_add(self.width) < WIDTH {
            self.x = self.x.wrapping_add(5);
        }
    }

    /// Moves the rectangle 5 pixels up, unless it touches the top edge.
    pub fn move_up(&mut self)
        ensures
            *final(self) == (Rectangle {
                y: (if old(self).y > 0 {
                    wrapped(old(self).y - 5)
                } else {
                    old(self).y as int
                }) as usize,
                ..*old(self)
            }),
    {
        if self.y > 0 {
            self.y = self.y.wrapping_sub(5);
        }
    }

    /// Moves the rectangle 5 pixels down, unless its bottom reaches the
    /// bottom edge.
    pub fn move_down(&mut self)
        ensures
            *final(self) == (Rectangle {
                y: (if wrapped(old(self).y + old(self).height) < HEIGHT {
                    wrapped(old(self).y + 5)
                } else {
                    old(self).y as int
                }) as usize,
                ..*old(self)
            }),
    {
        if self.y.wrapping_add(self.height) < HEIGHT {
            self.y = self.y.wrapping_add(5);
        }
    }

    /// Paints the rectangle in `color` from now on.
    pub fn set_color(&mut self, color: u8)
        ensures
            *final(self) == (Rectangle { color, ..*old(self) }),
    {
        self.color = color;
    }

    /// Moves the rectangle by the mouse movement `(x, y)`, kept on the
    /// screen (see `moved`).
    pub fn add_pos(&mut self, x: i8, y: i8)
        ensures
            *final(self) == (Rectangle {
                x: moved(old(self).x, x, WIDTH) as usize,
                y: moved(old(self).y, y, HEIGHT) as usize,
                ..*old(self)
            }),
    {
        let sx = (self.x as i32).wrapping_add(x as i32);
        if sx < 0 {
            self.x = 0;
        } else if sx > WIDTH as i32 {
            self.x = WIDTH - 1;
        } else {
            self.x = self.x.wrapping_add_signed(x as isize);
        }
        let sy = (self.y as i32).wrapping_add(y as i32);
        if sy < 0 {
            self.y = 0;
        } else if sy > HEIGHT as i32 {
            self.y = HEIGHT - 1;
        } else {
            self.y = self.y.wrapping_add_signed(y as isize);
        }
    }
}

/// The distance forward from `start` to `p`, counted round the range of
/// `usize`.
pub open spec fn offset(p: int, start: int) -> int {
    if p >= start {
        p - start
    } else {
        p - start + usize::MAX + 1
    }
}

/// Whether rectangle `r` covers pixel `(px, py)`: the pixel lies less than
/// `width` columns and `height` rows forward of the corner, counting round
/// the range of `usize` as the wrapping coordinates do.
pub open spec fn covers(r: Rectangle, px: int, py: int) -> bool {
    offset(px, r.x as int) < r.width && offset(py, r.y as int) < r.height
}

/// The demo's own screen buffer: one colour byte per pixel, row by row.
pub struct Framebuffer {
    pub buffer: Vec<u8>,
}

impl Framebuffer {
    /// The buffer has one byte per pixel of the screen.
    pub open spec fn well_formed(&self) -> bool {
        self.buffer@.len() == WIDTH * HEIGHT
    }

    /// A black screen.
    pub fn new() -> (fb: Self)
        ensures
            fb.well_formed(),
            forall|i: int| 0 <= i < fb.buffer@.len() ==> fb.buffer@[i] == 0,
    {
        let mut buffer: Vec<u8> = Vec::new();
        while buffer.len() < WIDTH * HEIGHT
            invariant
                buffer@.len() <= WIDTH * HEIGHT,
                forall|i: int| 0 <= i < buffer@.len() ==> buffer@[i] == 0,
            decreases WIDTH * HEIGHT - buffer@.len(),
        {
            buffer.push(0);
        }
        Self { buffer }
    }

    /// Paints the whole screen black.
    pub fn clear(&mut self)
        ensures
            final(self).buffer@.len() == old(self).buffer@.len(),
            forall|i: int| 0 <= i < final(self).buffer@.len() ==> final(self).buffer@[i] == 0,
    {
        let n = self.buffer.len();
        let mut i: usize = 0;
        while i < n
            invariant
                0 <= i <= n,
                n == self.buffer@.len(),
                forall|j: int| 0 <= j < i ==> self.buffer@[j] == 0,
            decreases n - i,
        {
            self.buffer.set(i, 0);
            i = i + 1;
        }
    }

    /// Paints pixel `(x, y)` in `color`; pixels off the screen are ignored.
    pub fn set_pixel(&mut self, x: usize, y: usize, color: u8)
        requires
            old(self).well_formed(),
        ensures
            final(self).well_formed(),
            final(self).buffer@ == (if x < WIDTH && y < HEIGHT {
                old(self).buffer@.update(y * WIDTH + x, color)
            } else {
                old(self).buffer@
            }),
    {
        if x < WIDTH && y < HEIGHT {
            self.buffer.set(y * WIDTH + x, color);
        }
    }

    /// Paints the pixels that the rectangle covers (see `covers`) in its
    /// colour.
    pub fn draw_rectangle(&mut self, rect: &Rectangle)
        requires
            old(self).well_formed(),
        ensures
            final(self).well_formed(),
            forall|i: int|
                0 <= i < WIDTH * HEIGHT ==> #[trigger] final(self).buffer@[i] == (if covers(
                    *rect,
                    i % WIDTH as int,
                    i / WIDTH as int,
                ) {
                    rect.color
                } else {
                    old(self).buffer@[i]
                }),
    {
        let ghost start = self.buffer@;
        let mut dy: usize = 0;
        while dy < rect.height
            invariant
                self.well_formed(),
                start.len() == WIDTH * HEIGHT,
                dy <= rect.height,
                forall|i: int|
                    0 <= i < WIDTH * HEIGHT ==> #[trigger] self.buffer@[i] == (if offset(
                        i / WIDTH as int,
                        rect.y as int,
                    ) < dy && offset(i % WIDTH as int, rect.x as int) < rect.width {
                        rect.color
                    } else {
                        start[i]
                    }),
            decreases rect.height - dy,
        {
            let mut dx: usize = 0;
            while dx < rect.width
                invariant
                    self.well_formed(),
                    start.len() == WIDTH * HEIGHT,
                    dy < rect.height,
                    dx <= rect.width,
                    forall|i: int|
                        0 <= i < WIDTH * HEIGHT ==> #[trigger] self.buffer@[i] == (if (offset(
                            i / WIDTH as int,
                            rect.y as int,
                        ) < dy && offset(i % WIDTH as int, rect.x as int) < rect.width) || (offset(
                            i / WIDTH as int,
                            rect.y as int,
                        ) == dy && offset(i % WIDTH as int, rect.x as int) < dx) {
                            rect.color
                        } else {
                            start[i]
                        }),
                decreases rect.width - dx,
            {
                let px = rect.x.wrapping_add(dx);
                let py = rect.y.wrapping_add(dy);
                let ghost before = self.buffer@;
                self.set_pixel(px, py, rect.color);
                proof {
                    assert(offset(px as int, rect.x as int) == dx);
                    assert(offset(py as int, rect.y as int) == dy);
                    assert forall|i: int| 0 <= i < WIDTH * HEIGHT implies #[trigger] self.buffer@[i] == (if (offset(
                        i / WIDTH as int,
                        rect.y as int,
                    ) < dy && offset(i % WIDTH as int, rect.x as int) < rect.width) || (offset(
                        i / WIDTH as int,
                        rect.y as int,
                    ) == dy && offset(i % WIDTH as int, rect.x as int) < dx + 1) {
                        rect.color
                    } else {
                        start[i]
                    }) by {
                        let (qx, qy) = (i % WIDTH as int, i / WIDTH as int);
                        assert(0 <= qx < WIDTH && 0 <= qy < HEIGHT);
                        if px < WIDTH && py < HEIGHT && i == py * WIDTH + px {
                            assert(qx == px && qy == py);
                        } else if qy == py && qx == px {
                            assert(i == py * WIDTH + px);
                        } else {
                            assert(self.buffer@[i] == before[i]);
                            if offset(qy, rect.y as int) == dy && offset(qx, rect.x as int) == dx {
                                assert(qy == py && qx == px);
                            }
                        }
                    }
                }
                dx = dx + 1;
            }
            dy = dy + 1;
        }
    }
}

} // verus!
