//! The input of one player: movement keys, the shooting button and the
//! mouse position on the screen, and its byte form for the network.
use vstd::prelude::*;
use crate::sys::mouse::MouseEvent;
use crate::usr::game::tanks::state::{le_u32, from_le_u32, lemma_le_u32_round_trip, push_le_u32, read_le_u32};

verus! {

/// Stores the state of the movement keys (up, right, down, left), of the
/// shooting button and the mouse position.
#[derive(Clone, Copy, PartialEq, Eq, Structural, Debug)]
pub struct UserInput {
    pub up: bool,
    pub right: bool,
    pub down: bool,
    pub left: bool,
    pub shooting: bool,
    pub map_mouse_x: isize,
    pub map_mouse_y: isize,
}

/// `v` clamped as `update_from_io` clamps it into an area of `bound`
/// pixels: negative values become 0, values from `bound as isize` on
/// become `(bound - 1) as isize` (the casts to `isize` wrap).
pub open spec fn clamp_coord(v: int, bound: usize) -> int {
    if v < 0 {
        0
    } else if v >= (bound as isize) as int {
        ((bound - 1) as usize as isize) as int
    } else {
        v
    }
}

/// The horizontal mouse position after the events, starting at `x0`:
/// each event moves it and clamps it into `0 .. width`.
pub open spec fn mouse_x_after(x0: int, ev: Seq<MouseEvent>, width: usize) -> int
    decreases ev.len(),
{
    if ev.len() == 0 {
        x0
    } else {
        clamp_coord(mouse_x_after(x0, ev.drop_last(), width) + ev.last().x_movement, width)
    }
}

/// The vertical mouse position after the events, starting at `y0`.
pub open spec fn mouse_y_after(y0: int, ev: Seq<MouseEvent>, height: usize) -> int
    decreases ev.len(),
{
    if ev.len() == 0 {
        y0
    } else {
        clamp_coord(mouse_y_after(y0, ev.drop_last(), height) + ev.last().y_movement, height)
    }
}

/// A moved coordinate `v` can be clamped into an area of `bound` pixels:
/// it is an `isize` value, and it needs no clamping from above when the
/// area is empty (where `bound - 1` would underflow).
pub open spec fn clamp_fits(v: int, bound: usize) -> bool {
    &&& isize::MIN <= v <= isize::MAX
    &&& (v >= 0 && v >= (bound as isize) as int ==> bound > 0)
}

/// `update_from_io` can follow the events horizontally from `x0` in an
/// area `width` pixels wide (see `clamp_fits`).
pub open spec fn mouse_x_fits(x0: int, ev: Seq<MouseEvent>, width: usize) -> bool
    decreases ev.len(),
{
    ev.len() == 0 || (mouse_x_fits(x0, ev.drop_last(), width) && clamp_fits(
        mouse_x_after(x0, ev.drop_last(), width) + ev.last().x_movement,
        width,
    ))
}

/// `update_from_io` can follow the events vertically from `y0` in an area
/// `height` pixels high (see `clamp_fits`).
pub open spec fn mouse_y_fits(y0: int, ev: Seq<MouseEvent>, height: usize) -> bool
    decreases ev.len(),
{
    ev.len() == 0 || (mouse_y_fits(y0, ev.drop_last(), height) && clamp_fits(
        mouse_y_after(y0, ev.drop_last(), height) + ev.last().y_movement,
        height,
    ))
}

/// What can follow the events can follow their first `n`.
pub proof fn lemma_fits_prefix(x0: int, y0: int, ev: Seq<MouseEvent>, width: usize, height: usize, n: int)
    requires
        mouse_x_fits(x0, ev, width),
        mouse_y_fits(y0, ev, height),
        0 <= n <= ev.len(),
    ensures
        mouse_x_fits(x0, ev.subrange(0, n), width),
        mouse_y_fits(y0, ev.subrange(0, n), height),
    decreases ev.len(),
{
    if n < ev.len() {
        lemma_fits_prefix(x0, y0, ev.drop_last(), width, height, n);
        assert(ev.drop_last().subrange(0, n) =~= ev.subrange(0, n));
    } else {
        assert(ev.subrange(0, n) =~= ev);
    }
}

/// Some event has the left button pressed.
pub open spec fn any_left_click(ev: Seq<MouseEvent>) -> bool {
    exists|k: int| 0 <= k < ev.len() && #[trigger] ev[k].left_pressed()
}

/// The input `u` after `update_from_io` with key state `keys` = (up, down,
/// left, right) and mouse events `ev` in a `w` by `h` area.
pub open spec fn input_after(
    u: UserInput,
    keys: (bool, bool, bool, bool),
    ev: Seq<MouseEvent>,
    w: usize,
    h: usize,
) -> UserInput {
    UserInput {
        up: keys.0,
        right: keys.3,
        down: keys.1,
        left: keys.2,
        shooting: if ev.len() > 0 {
            any_left_click(ev)
        } else {
            u.shooting
        },
        map_mouse_x: mouse_x_after(u.map_mouse_x as int, ev, w) as isize,
        map_mouse_y: mouse_y_after(u.map_mouse_y as int, ev, h) as isize,
    }
}

impl UserInput {
    /// No key pressed and the mouse at the origin.
    pub open spec fn idle() -> UserInput {
        UserInput {
            up: false,
            right: false,
            down: false,
            left: false,
            shooting: false,
            map_mouse_x: 0,
            map_mouse_y: 0,
        }
    }

    /// The flag byte: bit 0 up, 1 right, 2 down, 3 left, 4 shooting.
    pub open spec fn flags(self) -> u8 {
        ((((0u8 | (if self.up { 1u8 } else { 0u8 })) | (if self.right { 2u8 } else { 0u8 })) | (
        if self.down { 4u8 } else { 0u8 })) | (if self.left { 8u8 } else { 0u8 })) | (
        if self.shooting { 16u8 } else { 0u8 })
    }

    /// The byte form: the flag byte, then the mouse position, each
    /// coordinate as four little-endian bytes of the coordinate truncated to
    /// 32 bits.
    pub open spec fn to_bytes(self) -> Seq<u8> {
        seq![self.flags()] + le_u32((self.map_mouse_x as i32) as u32) + le_u32(
            (self.map_mouse_y as i32) as u32,
        )
    }

    /// The input decoded from bytes: `idle()` when there are fewer than
    /// nine, else the flags of the first byte and the two signed 32-bit
    /// coordinates that follow (bytes after them are ignored).
    pub open spec fn from_bytes(data: Seq<u8>) -> UserInput {
        if data.len() < 9 {
            UserInput::idle()
        } else {
            let f = data[0];
            UserInput {
                up: f & 1u8 != 0,
                right: f & 2u8 != 0,
                down: f & 4u8 != 0,
                left: f & 8u8 != 0,
                shooting: f & 16u8 != 0,
                map_mouse_x: (from_le_u32(data[1], data[2], data[3], data[4]) as i32) as isize,
                map_mouse_y: (from_le_u32(data[5], data[6], data[7], data[8]) as i32) as isize,
            }
        }
    }

    /// Encodes the input (see `to_bytes`).
    pub fn serialize(&self) -> (out: Vec<u8>)
        ensures
            out@ == self.to_bytes(),
    {
        let mut result: Vec<u8> = Vec::new();
        let mut input_flags = 0u8;
        input_flags = input_flags | (if self.up { 1u8 } else { 0u8 });
        input_flags = input_flags | (if self.right { 2u8 } else { 0u8 });
        input_flags = input_flags | (if self.down { 4u8 } else { 0u8 });
        input_flags = input_flags | (if self.left { 8u8 } else { 0u8 });
        input_flags = input_flags | (if self.shooting { 16u8 } else { 0u8 });
        result.push(input_flags);
        let x = self.map_mouse_x as i32;
        let y = self.map_mouse_y as i32;
        push_le_u32(&mut result, x as u32);
        push_le_u32(&mut result, y as u32);
        assert(result@ =~= self.to_bytes());
        result
    }

    /// Decodes an input (see `from_bytes`).
    pub fn deserialize(data: &[u8]) -> (u: UserInput)
        ensures
            u == UserInput::from_bytes(data@),
    {
        if data.len() < 9 {
            return UserInput {
                up: false,
                right: false,
                down: false,
                left: false,
                shooting: false,
                map_mouse_x: 0,
                map_mouse_y: 0,
            };
        }
        let input_flags = data[0];
        let map_mouse_x = (read_le_u32(data, 1) as i32) as isize;
        let map_mouse_y = (read_le_u32(data, 5) as i32) as isize;
        UserInput {
            up: (input_flags & 0b00001) != 0,
            right: (input_flags & 0b00010) != 0,
            down: (input_flags & 0b00100) != 0,
            left: (input_flags & 0b01000) != 0,
            shooting: (input_flags & 0b10000) != 0,
            map_mouse_x,
            map_mouse_y,
        }
    }

    /// Whether `update_from_io` can follow the mouse events from this
    /// input's position in a `width` by `height` area (see `mouse_x_fits`
    /// and `mouse_y_fits`).
    pub fn mouse_fits(&self, events: &[MouseEvent], width: usize, height: usize) -> (b: bool)
        ensures
            b == (mouse_x_fits(self.map_mouse_x as int, events@, width) && mouse_y_fits(
                self.map_mouse_y as int,
                events@,
                height,
            )),
    {
        let ghost x0 = self.map_mouse_x as int;
        let ghost y0 = self.map_mouse_y as int;
        let mut x = self.map_mouse_x;
        let mut y = self.map_mouse_y;
        let mut k: usize = 0;
        while k < events.len()
            invariant
                0 <= k <= events@.len(),
                x0 == self.map_mouse_x,
                y0 == self.map_mouse_y,
                mouse_x_fits(x0, events@.subrange(0, k as int), width),
                mouse_y_fits(y0, events@.subrange(0, k as int), height),
                x == mouse_x_after(x0, events@.subrange(0, k as int), width),
                y == mouse_y_after(y0, events@.subrange(0, k as int), height),
            decreases events@.len() - k,
        {
            let event = events[k];
            let ghost prefix = events@.subrange(0, k as int);
            let ghost next = events@.subrange(0, k + 1);
            assert(next.drop_last() =~= prefix);
            assert(next.last() == event);
            let nx = (x as i128) + (event.x_movement as i128);
            let ny = (y as i128) + (event.y_movement as i128);
            if nx < isize::MIN as i128 || nx > isize::MAX as i128 || (nx >= 0 && nx >= (width as isize) as i128
                && width == 0) || ny < isize::MIN as i128 || ny > isize::MAX as i128 || (ny >= 0 && ny >= (
            height as isize) as i128 && height == 0) {
                proof {
                    if mouse_x_fits(x0, events@, width) && mouse_y_fits(y0, events@, height) {
                        lemma_fits_prefix(x0, y0, events@, width, height, k + 1);
                        assert(mouse_x_fits(x0, next, width) && mouse_y_fits(y0, next, height));
                        assert(clamp_fits(x + event.x_movement, width) && clamp_fits(y + event.y_movement, height));
                        assert(false);
                    }
                }
                return false;
            }
            x = if nx < 0 {
                0
            } else if nx >= (width as isize) as i128 {
                (width - 1) as isize
            } else {
                nx as isize
            };
            y = if ny < 0 {
                0
            } else if ny >= (height as isize) as i128 {
                (height - 1) as isize
            } else {
                ny as isize
            };
            k = k + 1;
        }
        assert(events@.subrange(0, events@.len() as int) =~= events@);
        true
    }

    /// Updates the input from the keyboard and the mouse: the movement keys
    /// take the state `keys` = (up, down, left, right); each mouse event in
    /// turn moves the mouse position and clamps it into the `width` by
    /// `height` area (see `clamp_coord`); if there was at least one event,
    /// the player shoots exactly when some event has the left button
    /// pressed, else the shooting state stays.
    pub fn update_from_io(
        &mut self,
        keys: (bool, bool, bool, bool),
        events: &[MouseEvent],
        width: usize,
        height: usize,
    )
        requires
            mouse_x_fits(old(self).map_mouse_x as int, events@, width),
            mouse_y_fits(old(self).map_mouse_y as int, events@, height),
        ensures
            final(self).up == keys.0,
            final(self).down == keys.1,
            final(self).left == keys.2,
            final(self).right == keys.3,
            final(self).map_mouse_x == mouse_x_after(old(self).map_mouse_x as int, events@, width),
            final(self).map_mouse_y == mouse_y_after(old(self).map_mouse_y as int, events@, height),
            final(self).shooting == (if events@.len() > 0 {
                any_left_click(events@)
            } else {
                old(self).shooting
            }),
    {
        self.up = keys.0;
        self.down = keys.1;
        self.left = keys.2;
        self.right = keys.3;
        let ghost x0 = self.map_mouse_x as int;
        let ghost y0 = self.map_mouse_y as int;
        let mut new_shooting = false;
        let mut atleast_once = false;
        let mut k: usize = 0;
        while k < events.len()
            invariant
                0 <= k <= events@.len(),
                atleast_once == (k > 0),
                new_shooting == any_left_click(events@.subrange(0, k as int)),
                self.map_mouse_x == mouse_x_after(x0, events@.subrange(0, k as int), width),
                self.map_mouse_y == mouse_y_after(y0, events@.subrange(0, k as int), height),
                mouse_x_fits(x0, events@, width),
                mouse_y_fits(y0, events@, height),
                self.up == keys.0,
                self.down == keys.1,
                self.left == keys.2,
                self.right == keys.3,
                self.shooting == old(self).shooting,
            decreases events@.len() - k,
        {
            let event = events[k];
            let ghost prefix = events@.subrange(0, k as int);
            let ghost next = events@.subrange(0, k + 1);
            assert(next.drop_last() =~= prefix);
            assert(next.last() == event);
            proof {
                lemma_fits_prefix(x0, y0, events@, width, height, k + 1);
            }
            atleast_once = true;
            self.map_mouse_x = self.map_mouse_x + event.x_movement as isize;
            self.map_mouse_y = self.map_mouse_y + event.y_movement as isize;
            if self.map_mouse_x < 0 {
                self.map_mouse_x = 0;
            } else if self.map_mouse_x >= width as isize {
                self.map_mouse_x = (width - 1) as isize;
            }
            if self.map_mouse_y < 0 {
                self.map_mouse_y = 0;
            } else if self.map_mouse_y >= height as isize {
                self.map_mouse_y = (height - 1) as isize;
            }
            let click = event.is_left_click();
            proof {
                if click {
                    assert(next[k as int].left_pressed());
                }
                if new_shooting {
                    let j = choose|j: int| 0 <= j < prefix.len() && #[trigger] prefix[j].left_pressed();
                    assert(next[j] == prefix[j]);
                }
                if any_left_click(next) {
                    let j = choose|j: int| 0 <= j < next.len() && #[trigger] next[j].left_pressed();
                    if j < k {
                        assert(prefix[j] == next[j]);
                    }
                }
            }
            new_shooting = new_shooting || click;
            k = k + 1;
        }
        assert(events@.subrange(0, events@.len() as int) =~= events@);
        if atleast_once {
            self.shooting = new_shooting;
        }
    }
}

/// Decoding the byte form of an input whose mouse position fits in 32
/// bits gives the input back.
pub proof fn lemma_input_round_trip(u: UserInput)
    requires
        i32::MIN <= u.map_mouse_x <= i32::MAX,
        i32::MIN <= u.map_mouse_y <= i32::MAX,
    ensures
        UserInput::from_bytes(u.to_bytes()) == u,
{
    let d = u.to_bytes();
    let xi = u.map_mouse_x as i32;
    let yi = u.map_mouse_y as i32;
    lemma_le_u32_round_trip(xi as u32, 0, 0, 0, 0);
    lemma_le_u32_round_trip(yi as u32, 0, 0, 0, 0);
    assert(((xi as u32) as i32) == xi) by (bit_vector);
    assert(((yi as u32) as i32) == yi) by (bit_vector);
    let a: u8 = if u.up { 1u8 } else { 0u8 };
    let b: u8 = if u.right { 2u8 } else { 0u8 };
    let c: u8 = if u.down { 4u8 } else { 0u8 };
    let e: u8 = if u.left { 8u8 } else { 0u8 };
    let g: u8 = if u.shooting { 16u8 } else { 0u8 };
    assert({
        let f = ((((0u8 | a) | b) | c) | e) | g;
        &&& (f & 1u8 != 0 <==> a != 0)
        &&& (f & 2u8 != 0 <==> b != 0)
        &&& (f & 4u8 != 0 <==> c != 0)
        &&& (f & 8u8 != 0 <==> e != 0)
        &&& (f & 16u8 != 0 <==> g != 0)
    }) by (bit_vector)
        requires
            a == 0 || a == 1,
            b == 0 || b == 2,
            c == 0 || c == 4,
            e == 0 || e == 8,
            g == 0 || g == 16,
    ;
    assert(d[1] == (xi as u32) as u8);
    assert(d[5] == (yi as u32) as u8);
}

} // verus!
