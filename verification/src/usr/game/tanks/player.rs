//! A player of the tank game, its byte form for the network, and the test
//! whether a player square placed somewhere touches a wall of the map.
use vstd::prelude::*;
use crate::usr::game::tanks::map::{TileMap, wall_segment, lemma_grid_index};
use crate::usr::game::tanks::renderer::has_wall;
use crate::usr::game::tanks::state::{
    PLAYER_SIZE, le_u32, from_le_u32, lemma_le_u32_round_trip, push_le_u32, read_le_u32, le_u64,
    from_le_u64, lemma_le_u64_round_trip, push_le_u64, read_le_u64,
};
use crate::usr::game::tanks::userinput::{UserInput, lemma_input_round_trip};

verus! {

/// A player: identifier, position, life state, input, aim, score and ammo.
/// The position `x`, `y` and the time stamps `time_of_death`, `last_shot`
/// and `last_reload_ammo` (seconds since boot) are `f64` values, held here
/// as their bit patterns (`f64::to_bits`).
pub struct Player {
    pub id: usize,
    pub x: u64,
    pub y: u64,
    pub alive: bool,
    pub time_of_death: u64,
    pub user_input: UserInput,
    pub pointing_to: (usize, usize),
    pub points: usize,
    pub ammo: usize,
    pub last_shot: u64,
    pub last_reload_ammo: u64,
}

impl Clone for Player {
    /// Copies the player; the copy's reload time stamp starts at 0.0.
    fn clone(&self) -> (res: Self)
        ensures
            res == (Player { last_reload_ammo: 0, ..*self }),
    {
        Player {
            id: self.id,
            x: self.x,
            y: self.y,
            alive: self.alive,
            time_of_death: self.time_of_death,
            user_input: self.user_input,
            pointing_to: self.pointing_to,
            points: self.points,
            ammo: self.ammo,
            last_shot: self.last_shot,
            last_reload_ammo: 0,
        }
    }
}

/// Length of a player's byte form.
pub const PLAYER_BYTES: usize = 70;

impl Player {
    /// The player that a too short byte form decodes to: every field false
    /// or zero (identifier 0 at the origin, not alive, no input, points or
    /// ammo, all time stamps 0.0).
    pub open spec fn blank() -> Player {
        Player {
            id: 0,
            x: 0,
            y: 0,
            alive: false,
            time_of_death: 0,
            user_input: UserInput::idle(),
            pointing_to: (0, 0),
            points: 0,
            ammo: 0,
            last_shot: 0,
            last_reload_ammo: 0,
        }
    }

    /// The byte form: identifier (4 bytes), `x`, `y` (8 each), the alive
    /// byte (1 or 0), the time of death (8), the input (9, see
    /// `UserInput::to_bytes`), the aim coordinates, the points and the ammo
    /// (4 each) and the two remaining time stamps (8 each), 70 bytes in
    /// all; numbers are little-endian and the four counts are truncated to
    /// 32 bits.
    pub open spec fn to_bytes(self) -> Seq<u8> {
        le_u32(self.id as u32) + le_u64(self.x) + le_u64(self.y) + seq![
            if self.alive {
                1u8
            } else {
                0u8
            },
        ] + le_u64(self.time_of_death) + self.user_input.to_bytes() + le_u32(
            self.pointing_to.0 as u32,
        ) + le_u32(self.pointing_to.1 as u32) + le_u32(self.points as u32) + le_u32(
            self.ammo as u32,
        ) + le_u64(self.last_shot) + le_u64(self.last_reload_ammo)
    }

    /// The 32-bit number at `at` of a byte form.
    pub open spec fn field32(data: Seq<u8>, at: int) -> usize {
        from_le_u32(data[at], data[at + 1], data[at + 2], data[at + 3]) as usize
    }

    /// The player decoded from bytes: `blank()` for fewer than the 70
    /// bytes of a byte form, else the fields at the offsets of `to_bytes`.
    pub open spec fn from_bytes(data: Seq<u8>) -> Player {
        if data.len() < PLAYER_BYTES {
            Player::blank()
        } else {
            Player {
                id: Player::field32(data, 0),
                x: from_le_u64(data.subrange(4, 12)),
                y: from_le_u64(data.subrange(12, 20)),
                alive: data[20] != 0,
                time_of_death: from_le_u64(data.subrange(21, 29)),
                user_input: UserInput::from_bytes(data.subrange(29, 38)),
                pointing_to: (Player::field32(data, 38), Player::field32(data, 42)),
                points: Player::field32(data, 46),
                ammo: Player::field32(data, 50),
                last_shot: from_le_u64(data.subrange(54, 62)),
                last_reload_ammo: from_le_u64(data.subrange(62, 70)),
            }
        }
    }

    /// The counts and the mouse position fit the 32-bit fields of the byte
    /// form.
    pub open spec fn fits_wire(self) -> bool {
        &&& self.id <= u32::MAX
        &&& self.pointing_to.0 <= u32::MAX
        &&& self.pointing_to.1 <= u32::MAX
        &&& self.points <= u32::MAX
        &&& self.ammo <= u32::MAX
        &&& i32::MIN <= self.user_input.map_mouse_x <= i32::MAX
        &&& i32::MIN <= self.user_input.map_mouse_y <= i32::MAX
    }

    /// Encodes the player (see `to_bytes`).
    pub fn serialize(&self) -> (out: Vec<u8>)
        ensures
            out@ == self.to_bytes(),
            out@.len() == PLAYER_BYTES,
    {
        let mut result: Vec<u8> = Vec::new();
        push_le_u32(&mut result, self.id as u32);
        push_le_u64(&mut result, self.x);
        push_le_u64(&mut result, self.y);
        result.push(if self.alive { 1u8 } else { 0u8 });
        push_le_u64(&mut result, self.time_of_death);
        let input = self.user_input.serialize();
        let mut i: usize = 0;
        let ghost before = result@;
        while i < input.len()
            invariant
                0 <= i <= input@.len(),
                result@ == before + input@.subrange(0, i as int),
            decreases input@.len() - i,
        {
            result.push(input[i]);
            assert(input@.subrange(0, i + 1) =~= input@.subrange(0, i as int).push(input@[i as int]));
            i = i + 1;
        }
        assert(input@.subrange(0, input@.len() as int) =~= input@);
        push_le_u32(&mut result, self.pointing_to.0 as u32);
        push_le_u32(&mut result, self.pointing_to.1 as u32);
        push_le_u32(&mut result, self.points as u32);
        push_le_u32(&mut result, self.ammo as u32);
        push_le_u64(&mut result, self.last_shot);
        push_le_u64(&mut result, self.last_reload_ammo);
        assert(result@ =~= self.to_bytes());
        result
    }

    /// Decodes a player (see `from_bytes`).
    pub fn deserialize(data: &[u8]) -> (p: Player)
        ensures
            p == Player::from_bytes(data@),
    {
        if data.len() < PLAYER_BYTES {
            return Player {
                id: 0,
                x: 0,
                y: 0,
                alive: false,
                time_of_death: 0,
                user_input: UserInput {
                    up: false,
                    right: false,
                    down: false,
                    left: false,
                    shooting: false,
                    map_mouse_x: 0,
                    map_mouse_y: 0,
                },
                pointing_to: (0, 0),
                points: 0,
                ammo: 0,
                last_shot: 0,
                last_reload_ammo: 0,
            };
        }
        let id = read_le_u32(data, 0) as usize;
        let x = read_le_u64(data, 4);
        let y = read_le_u64(data, 12);
        let alive = data[20] != 0;
        let time_of_death = read_le_u64(data, 21);
        let input_bytes = &data[29..38];
        assert(input_bytes@ =~= data@.subrange(29, 38));
        let user_input = UserInput::deserialize(input_bytes);
        let pointing_to_x = read_le_u32(data, 38) as usize;
        let pointing_to_y = read_le_u32(data, 42) as usize;
        let points = read_le_u32(data, 46) as usize;
        let ammo = read_le_u32(data, 50) as usize;
        let last_shot = read_le_u64(data, 54);
        let last_reload_ammo = read_le_u64(data, 62);
        Player {
            id,
            x,
            y,
            alive,
            time_of_death,
            user_input,
            pointing_to: (pointing_to_x, pointing_to_y),
            points,
            ammo,
            last_shot,
            last_reload_ammo,
        }
    }
}

/// Decoding the byte form of a player whose counts and mouse position fit
/// the 32-bit fields gives the player back.
pub proof fn lemma_player_round_trip(p: Player)
    requires
        p.fits_wire(),
    ensures
        Player::from_bytes(p.to_bytes()) == p,
{
    let d = p.to_bytes();
    assert(d.len() == 70);
    lemma_le_u64_round_trip(p.x);
    lemma_le_u64_round_trip(p.y);
    lemma_le_u64_round_trip(p.time_of_death);
    lemma_le_u64_round_trip(p.last_shot);
    lemma_le_u64_round_trip(p.last_reload_ammo);
    lemma_input_round_trip(p.user_input);
    lemma_le_u32_round_trip(p.id as u32, 0, 0, 0, 0);
    lemma_le_u32_round_trip(p.pointing_to.0 as u32, 0, 0, 0, 0);
    lemma_le_u32_round_trip(p.pointing_to.1 as u32, 0, 0, 0, 0);
    lemma_le_u32_round_trip(p.points as u32, 0, 0, 0, 0);
    lemma_le_u32_round_trip(p.ammo as u32, 0, 0, 0, 0);
    assert(d.subrange(4, 12) =~= le_u64(p.x));
    assert(d.subrange(12, 20) =~= le_u64(p.y));
    assert(d.subrange(21, 29) =~= le_u64(p.time_of_death));
    assert(d.subrange(29, 38) =~= p.user_input.to_bytes());
    assert(d.subrange(54, 62) =~= le_u64(p.last_shot));
    assert(d.subrange(62, 70) =~= le_u64(p.last_reload_ammo));
    let l = le_u32(p.id as u32);
    assert(d[0] == l[0] && d[1] == l[1] && d[2] == l[2] && d[3] == l[3]);
    let l = le_u32(p.pointing_to.0 as u32);
    assert(d[38] == l[0] && d[39] == l[1] && d[40] == l[2] && d[41] == l[3]);
    let l = le_u32(p.pointing_to.1 as u32);
    assert(d[42] == l[0] && d[43] == l[1] && d[44] == l[2] && d[45] == l[3]);
    let l = le_u32(p.points as u32);
    assert(d[46] == l[0] && d[47] == l[1] && d[48] == l[2] && d[49] == l[3]);
    let l = le_u32(p.ammo as u32);
    assert(d[50] == l[0] && d[51] == l[1] && d[52] == l[2] && d[53] == l[3]);
    assert(d[20] == (if p.alive { 1u8 } else { 0u8 }));
}

/// `n / d` lies in `[0, 1]` (for `d != 0`).
pub open spec fn ratio_in_unit(n: int, d: int) -> bool {
    if d > 0 {
        0 <= n <= d
    } else {
        d <= n <= 0
    }
}

/// The closed ranges `[min(a1, a2), max(a1, a2)]` and
/// `[min(b1, b2), max(b1, b2)]` share a value.
pub open spec fn ranges_overlap(a1: int, a2: int, b1: int, b2: int) -> bool {
    let (alo, ahi) = if a1 <= a2 { (a1, a2) } else { (a2, a1) };
    let (blo, bhi) = if b1 <= b2 { (b1, b2) } else { (b2, b1) };
    alo <= bhi && blo <= ahi
}

/// The segment from `(x1, y1)` to `(x2, y2)` and the segment from
/// `(x3, y3)` to `(x4, y4)` share a point. When they are not parallel
/// (`denom != 0`), both parameters of the crossing point of their lines,
/// `ua = na / denom` along the first and `ub = nb / denom` along the
/// second, lie in `[0, 1]`. When they are parallel, they lie on one line
/// (`na` and `nb` are 0) and their ranges overlap in both coordinates.
pub open spec fn segments_cross(
    x1: int,
    y1: int,
    x2: int,
    y2: int,
    x3: int,
    y3: int,
    x4: int,
    y4: int,
) -> bool {
    let denom = (y4 - y3) * (x2 - x1) - (x4 - x3) * (y2 - y1);
    let na = (x4 - x3) * (y1 - y3) - (y4 - y3) * (x1 - x3);
    let nb = (x2 - x1) * (y1 - y3) - (y2 - y1) * (x1 - x3);
    if denom != 0 {
        ratio_in_unit(na, denom) && ratio_in_unit(nb, denom)
    } else {
        &&& na == 0
        &&& nb == 0
        &&& ranges_overlap(x1, x2, x3, x4)
        &&& ranges_overlap(y1, y2, y3, y4)
    }
}

/// Whether the ranges spanned by `a1, a2` and by `b1, b2` overlap (see
/// `ranges_overlap`).
fn overlap(a1: i64, a2: i64, b1: i64, b2: i64) -> (r: bool)
    ensures
        r == ranges_overlap(a1 as int, a2 as int, b1 as int, b2 as int),
{
    let (alo, ahi) = if a1 <= a2 { (a1, a2) } else { (a2, a1) };
    let (blo, bhi) = if b1 <= b2 { (b1, b2) } else { (b2, b1) };
    alo <= bhi && blo <= ahi
}

/// A pixel coordinate of at most `2^24` in magnitude: the products of the
/// intersection test then stay below `2^53`, where the game's `f64`
/// division gives the exact comparisons that the integer test makes.
pub open spec fn small_coord(v: int) -> bool {
    -0x100_0000 <= v <= 0x100_0000
}

/// The product of two differences of small coordinates stays below `2^50`.
proof fn lemma_product_bound(p: int, q: int)
    by (nonlinear_arith)
    requires
        -0x200_0000 <= p <= 0x200_0000,
        -0x200_0000 <= q <= 0x200_0000,
    ensures
        -0x4_0000_0000_0000 <= p * q <= 0x4_0000_0000_0000,
{
}

/// Whether two segments share a point (see `segments_cross`). For
/// segments that are not parallel the test is the exact integer form of
/// `0 <= na / denom <= 1 && 0 <= nb / denom <= 1`; parallel segments meet
/// when they lie on one line and overlap.
pub fn line_intersects_line(
    x1: isize,
    y1: isize,
    x2: isize,
    y2: isize,
    x3: isize,
    y3: isize,
    x4: isize,
    y4: isize,
) -> (r: bool)
    requires
        small_coord(x1 as int),
        small_coord(y1 as int),
        small_coord(x2 as int),
        small_coord(y2 as int),
        small_coord(x3 as int),
        small_coord(y3 as int),
        small_coord(x4 as int),
        small_coord(y4 as int),
    ensures
        r == segments_cross(
            x1 as int,
            y1 as int,
            x2 as int,
            y2 as int,
            x3 as int,
            y3 as int,
            x4 as int,
            y4 as int,
        ),
{
    let a = (x2 as i64) - (x1 as i64);
    let b = (y2 as i64) - (y1 as i64);
    let c = (x4 as i64) - (x3 as i64);
    let d = (y4 as i64) - (y3 as i64);
    let e = (x1 as i64) - (x3 as i64);
    let f = (y1 as i64) - (y3 as i64);
    proof {
        lemma_product_bound(d as int, a as int);
        lemma_product_bound(c as int, b as int);
        lemma_product_bound(c as int, f as int);
        lemma_product_bound(d as int, e as int);
        lemma_product_bound(a as int, f as int);
        lemma_product_bound(b as int, e as int);
    }
    let denom = d * a - c * b;
    let na = c * f - d * e;
    let nb = a * f - b * e;
    if denom == 0 {
        return na == 0 && nb == 0 && overlap(x1 as i64, x2 as i64, x3 as i64, x4 as i64) && overlap(
            y1 as i64,
            y2 as i64,
            y3 as i64,
            y4 as i64,
        );
    }
    if denom > 0 {
        0 <= na && na <= denom && 0 <= nb && nb <= denom
    } else {
        denom <= na && na <= 0 && denom <= nb && nb <= 0
    }
}

/// The tile column (or row) of pixel coordinate `v` for tiles of `ts`
/// pixels: `v / ts`, and 0 for negative `v`.
pub open spec fn tile_of(v: int, ts: int) -> int {
    if v < 0 {
        0
    } else {
        v / ts
    }
}

/// The player square with top-left corner `(x, y)` crosses segment `s`
/// with one of its four sides.
pub open spec fn box_hits(x: int, y: int, s: (int, int, int, int)) -> bool {
    let l = x;
    let r = x + PLAYER_SIZE - 1;
    let t = y;
    let b = y + PLAYER_SIZE - 1;
    ||| segments_cross(l, t, r, t, s.0, s.1, s.2, s.3)
    ||| segments_cross(l, b, r, b, s.0, s.1, s.2, s.3)
    ||| segments_cross(l, t, l, b, s.0, s.1, s.2, s.3)
    ||| segments_cross(r, t, r, b, s.0, s.1, s.2, s.3)
}

/// Cell `(cx, cy)` is one that the collision test looks at around tile
/// `(tx, ty)`: at most one tile away in each direction, not beyond the last
/// column and row, and with a row-major index `cy * tiles_x + cx` inside
/// the tile list. The walls taken are those stored at that index, placed at
/// cell `(cx, cy)`.
pub open spec fn probed(m: TileMap, tx: int, ty: int, cx: int, cy: int) -> bool {
    &&& tx - 1 <= cx <= tx + 1
    &&& cx <= m.tiles_x - 1
    &&& ty - 1 <= cy <= ty + 1
    &&& cy <= m.tiles_y - 1
    &&& 0 <= cy * m.tiles_x + cx < m.tiles@.len()
}

/// The wall on side `f` of the walls stored for cell `(cx, cy)` exists and
/// the player square at `(x, y)` crosses it.
pub open spec fn wall_hit(m: TileMap, x: int, y: int, cx: int, cy: int, f: int) -> bool {
    &&& 0 <= f < 4
    &&& has_wall(m.tiles@[cy * m.tiles_x + cx], f)
    &&& box_hits(x, y, wall_segment(cx, cy, m.tile_size as int, f))
}

/// The player square at `(x, y)` crosses a wall of one of the cells around
/// the tile that holds `(x, y)`.
pub open spec fn pos_collides(m: TileMap, x: int, y: int) -> bool {
    let ts = m.tile_size as int;
    exists|cx: int, cy: int, f: int|
        probed(m, tile_of(x, ts), tile_of(y, ts), cx, cy) && #[trigger] wall_hit(m, x, y, cx, cy, f)
}

/// A wall hit at a probed cell makes the position collide.
proof fn lemma_hit_collides(m: TileMap, x: int, y: int, cx: int, cy: int, f: int)
    requires
        probed(m, tile_of(x, m.tile_size as int), tile_of(y, m.tile_size as int), cx, cy),
        wall_hit(m, x, y, cx, cy, f),
    ensures
        pos_collides(m, x, y),
{
}

/// The map and the position are small enough for the collision test:
/// tiles of a positive size, a map of at most `2^23` pixels each way and a
/// position of at most `2^23` in magnitude.
pub open spec fn collision_bounds(m: TileMap, x: int, y: int) -> bool {
    &&& 0 < m.tile_size <= 0x80_0000
    &&& 0 < m.tiles_x
    &&& 0 < m.tiles_y
    &&& m.tiles_x * m.tile_size <= 0x80_0000
    &&& m.tiles_y * m.tile_size <= 0x80_0000
    &&& -0x80_0000 <= x <= 0x80_0000
    &&& -0x80_0000 <= y <= 0x80_0000
}

/// Point `(px, py)` lies on segment `s = (x1, y1, x2, y2)`, which runs
/// along one axis.
pub open spec fn on_axis_segment(px: int, py: int, s: (int, int, int, int)) -> bool {
    ||| (s.0 == s.2 && px == s.0 && (s.1 <= py <= s.3 || s.3 <= py <= s.1))
    ||| (s.1 == s.3 && py == s.1 && (s.0 <= px <= s.2 || s.2 <= px <= s.0))
}

/// Point `(px, py)` lies on the outline of the player square whose top-left
/// pixel is `(x, y)`: inside the square and on one of its four sides.
pub open spec fn on_square_outline(x: int, y: int, px: int, py: int) -> bool {
    &&& x <= px <= x + PLAYER_SIZE - 1
    &&& y <= py <= y + PLAYER_SIZE - 1
    &&& (px == x || px == x + PLAYER_SIZE - 1 || py == y || py == y + PLAYER_SIZE - 1)
}

/// Two axis-aligned segments that share a point cross (see
/// `segments_cross`); the first is a side of positive length.
proof fn lemma_touch_crosses(x1: int, y1: int, x2: int, y2: int, x3: int, y3: int, x4: int, y4: int, px: int, py: int)
    requires
        (x1 == x2 && y1 < y2) || (y1 == y2 && x1 < x2),
        on_axis_segment(px, py, (x1, y1, x2, y2)),
        on_axis_segment(px, py, (x3, y3, x4, y4)),
    ensures
        segments_cross(x1, y1, x2, y2, x3, y3, x4, y4),
{
    let denom = (y4 - y3) * (x2 - x1) - (x4 - x3) * (y2 - y1);
    let na = (x4 - x3) * (y1 - y3) - (y4 - y3) * (x1 - x3);
    let nb = (x2 - x1) * (y1 - y3) - (y2 - y1) * (x1 - x3);
    if x1 == x2 && y1 < y2 {
        assert(px == x1 && y1 <= py <= y2);
        if x3 == x4 && px == x3 {
            assert(denom == 0 && na == 0 && nb == 0) by (nonlinear_arith)
                requires
                    x1 == x2,
                    x3 == x4,
                    x1 == x3,
                    denom == (y4 - y3) * (x2 - x1) - (x4 - x3) * (y2 - y1),
                    na == (x4 - x3) * (y1 - y3) - (y4 - y3) * (x1 - x3),
                    nb == (x2 - x1) * (y1 - y3) - (y2 - y1) * (x1 - x3),
            ;
        } else {
            assert(y3 == y4 && py == y3 && (x3 <= px <= x4 || x4 <= px <= x3));
            if x3 < x4 {
                assert(denom < 0 && denom <= na <= 0 && denom <= nb <= 0) by (nonlinear_arith)
                    requires
                        x1 == x2,
                        y1 < y2,
                        y3 == y4,
                        x3 < x4,
                        x3 <= x1 <= x4,
                        y1 <= y3 <= y2,
                        denom == (y4 - y3) * (x2 - x1) - (x4 - x3) * (y2 - y1),
                        na == (x4 - x3) * (y1 - y3) - (y4 - y3) * (x1 - x3),
                        nb == (x2 - x1) * (y1 - y3) - (y2 - y1) * (x1 - x3),
                ;
            } else if x4 < x3 {
                assert(denom > 0 && 0 <= na <= denom && 0 <= nb <= denom) by (nonlinear_arith)
                    requires
                        x1 == x2,
                        y1 < y2,
                        y3 == y4,
                        x4 < x3,
                        x4 <= x1 <= x3,
                        y1 <= y3 <= y2,
                        denom == (y4 - y3) * (x2 - x1) - (x4 - x3) * (y2 - y1),
                        na == (x4 - x3) * (y1 - y3) - (y4 - y3) * (x1 - x3),
                        nb == (x2 - x1) * (y1 - y3) - (y2 - y1) * (x1 - x3),
                ;
            } else {
                assert(denom == 0 && na == 0 && nb == 0) by (nonlinear_arith)
                    requires
                        x1 == x2,
                        y3 == y4,
                        x3 == x4,
                        x1 == x3,
                        denom == (y4 - y3) * (x2 - x1) - (x4 - x3) * (y2 - y1),
                        na == (x4 - x3) * (y1 - y3) - (y4 - y3) * (x1 - x3),
                        nb == (x2 - x1) * (y1 - y3) - (y2 - y1) * (x1 - x3),
                ;
            }
        }
    } else {
        assert(py == y1 && x1 <= px <= x2);
        if y3 == y4 && py == y3 {
            assert(denom == 0 && na == 0 && nb == 0) by (nonlinear_arith)
                requires
                    y1 == y2,
                    y3 == y4,
                    y1 == y3,
                    denom == (y4 - y3) * (x2 - x1) - (x4 - x3) * (y2 - y1),
                    na == (x4 - x3) * (y1 - y3) - (y4 - y3) * (x1 - x3),
                    nb == (x2 - x1) * (y1 - y3) - (y2 - y1) * (x1 - x3),
            ;
        } else {
            assert(x3 == x4 && px == x3 && (y3 <= py <= y4 || y4 <= py <= y3));
            if y3 < y4 {
                assert(denom > 0 && 0 <= na <= denom && 0 <= nb <= denom) by (nonlinear_arith)
                    requires
                        y1 == y2,
                        x1 < x2,
                        x3 == x4,
                        y3 < y4,
                        y3 <= y1 <= y4,
                        x1 <= x3 <= x2,
                        denom == (y4 - y3) * (x2 - x1) - (x4 - x3) * (y2 - y1),
                        na == (x4 - x3) * (y1 - y3) - (y4 - y3) * (x1 - x3),
                        nb == (x2 - x1) * (y1 - y3) - (y2 - y1) * (x1 - x3),
                ;
            } else if y4 < y3 {
                assert(denom < 0 && denom <= na <= 0 && denom <= nb <= 0) by (nonlinear_arith)
                    requires
                        y1 == y2,
                        x1 < x2,
                        x3 == x4,
                        y4 < y3,
                        y4 <= y1 <= y3,
                        x1 <= x3 <= x2,
                        denom == (y4 - y3) * (x2 - x1) - (x4 - x3) * (y2 - y1),
                        na == (x4 - x3) * (y1 - y3) - (y4 - y3) * (x1 - x3),
                        nb == (x2 - x1) * (y1 - y3) - (y2 - y1) * (x1 - x3),
                ;
            } else {
                assert(denom == 0 && na == 0 && nb == 0) by (nonlinear_arith)
                    requires
                        y1 == y2,
                        x3 == x4,
                        y3 == y4,
                        y1 == y3,
                        denom == (y4 - y3) * (x2 - x1) - (x4 - x3) * (y2 - y1),
                        na == (x4 - x3) * (y1 - y3) - (y4 - y3) * (x1 - x3),
                        nb == (x2 - x1) * (y1 - y3) - (y2 - y1) * (x1 - x3),
                ;
            }
        }
    }
}

/// Two segments that cross (see `segments_cross`), the first a side of
/// positive length along one axis and the second along one axis too,
/// share a point, which is returned.
proof fn lemma_cross_touch(x1: int, y1: int, x2: int, y2: int, x3: int, y3: int, x4: int, y4: int) -> (p: (
    int,
    int,
))
    requires
        (x1 == x2 && y1 < y2) || (y1 == y2 && x1 < x2),
        x3 == x4 || y3 == y4,
        segments_cross(x1, y1, x2, y2, x3, y3, x4, y4),
    ensures
        on_axis_segment(p.0, p.1, (x1, y1, x2, y2)),
        on_axis_segment(p.0, p.1, (x3, y3, x4, y4)),
{
    let denom = (y4 - y3) * (x2 - x1) - (x4 - x3) * (y2 - y1);
    let na = (x4 - x3) * (y1 - y3) - (y4 - y3) * (x1 - x3);
    let nb = (x2 - x1) * (y1 - y3) - (y2 - y1) * (x1 - x3);
    if x1 == x2 {
        if y3 == y4 && x3 != x4 {
            assert(denom != 0) by (nonlinear_arith)
                requires
                    x1 == x2,
                    y1 < y2,
                    y3 == y4,
                    x3 != x4,
                    denom == (y4 - y3) * (x2 - x1) - (x4 - x3) * (y2 - y1),
            ;
            assert(y1 <= y3 <= y2 && (x3 <= x1 <= x4 || x4 <= x1 <= x3)) by (nonlinear_arith)
                requires
                    x1 == x2,
                    y1 < y2,
                    y3 == y4,
                    x3 != x4,
                    denom == (y4 - y3) * (x2 - x1) - (x4 - x3) * (y2 - y1),
                    na == (x4 - x3) * (y1 - y3) - (y4 - y3) * (x1 - x3),
                    nb == (x2 - x1) * (y1 - y3) - (y2 - y1) * (x1 - x3),
                    denom > 0 ==> 0 <= na <= denom && 0 <= nb <= denom,
                    denom < 0 ==> denom <= na <= 0 && denom <= nb <= 0,
                    denom != 0,
            ;
            (x1, y3)
        } else {
            assert(x3 == x4);
            assert(denom == 0 && nb == -((y2 - y1) * (x1 - x3))) by (nonlinear_arith)
                requires
                    x1 == x2,
                    x3 == x4,
                    denom == (y4 - y3) * (x2 - x1) - (x4 - x3) * (y2 - y1),
                    nb == (x2 - x1) * (y1 - y3) - (y2 - y1) * (x1 - x3),
            ;
            assert(x1 == x3) by (nonlinear_arith)
                requires
                    nb == 0,
                    nb == -((y2 - y1) * (x1 - x3)),
                    y1 < y2,
            ;
            let lo3 = if y3 <= y4 { y3 } else { y4 };
            let q = if y1 <= lo3 { lo3 } else { y1 };
            (x1, q)
        }
    } else {
        if x3 == x4 && y3 != y4 {
            assert(denom != 0) by (nonlinear_arith)
                requires
                    y1 == y2,
                    x1 < x2,
                    x3 == x4,
                    y3 != y4,
                    denom == (y4 - y3) * (x2 - x1) - (x4 - x3) * (y2 - y1),
            ;
            assert(x1 <= x3 <= x2 && (y3 <= y1 <= y4 || y4 <= y1 <= y3)) by (nonlinear_arith)
                requires
                    y1 == y2,
                    x1 < x2,
                    x3 == x4,
                    y3 != y4,
                    denom == (y4 - y3) * (x2 - x1) - (x4 - x3) * (y2 - y1),
                    na == (x4 - x3) * (y1 - y3) - (y4 - y3) * (x1 - x3),
                    nb == (x2 - x1) * (y1 - y3) - (y2 - y1) * (x1 - x3),
                    denom > 0 ==> 0 <= na <= denom && 0 <= nb <= denom,
                    denom < 0 ==> denom <= na <= 0 && denom <= nb <= 0,
                    denom != 0,
            ;
            (x3, y1)
        } else {
            assert(y3 == y4);
            assert(denom == 0 && nb == (x2 - x1) * (y1 - y3)) by (nonlinear_arith)
                requires
                    y1 == y2,
                    y3 == y4,
                    denom == (y4 - y3) * (x2 - x1) - (x4 - x3) * (y2 - y1),
                    nb == (x2 - x1) * (y1 - y3) - (y2 - y1) * (x1 - x3),
            ;
            assert(y1 == y3) by (nonlinear_arith)
                requires
                    nb == 0,
                    nb == (x2 - x1) * (y1 - y3),
                    x1 < x2,
            ;
            let lo3 = if x3 <= x4 { x3 } else { x4 };
            let q = if x1 <= lo3 { lo3 } else { x1 };
            (q, y1)
        }
    }
}

/// A position collides only where the player square touches a wall: when
/// `pos_collides` holds (which `is_pos_colliding` computes), some point of
/// the square's outline lies on a wall of one of the cells that the test
/// looks at (see `probed`).
pub proof fn law_collision_needs_touch(m: TileMap, x: int, y: int)
    requires
        pos_collides(m, x, y),
    ensures
        exists|cx: int, cy: int, f: int, px: int, py: int|
            probed(m, tile_of(x, m.tile_size as int), tile_of(y, m.tile_size as int), cx, cy) && 0 <= f < 4
                && has_wall(m.tiles@[cy * m.tiles_x + cx], f) && on_square_outline(x, y, px, py)
                && #[trigger] on_axis_segment(px, py, wall_segment(cx, cy, m.tile_size as int, f)),
{
    let ts = m.tile_size as int;
    let (cx, cy, f) = choose|cx: int, cy: int, f: int|
        probed(m, tile_of(x, ts), tile_of(y, ts), cx, cy) && #[trigger] wall_hit(m, x, y, cx, cy, f);
    let s = wall_segment(cx, cy, ts, f);
    assert(s.0 == s.2 || s.1 == s.3);
    let l = x;
    let r = x + PLAYER_SIZE - 1;
    let t = y;
    let b = y + PLAYER_SIZE - 1;
    let p = if segments_cross(l, t, r, t, s.0, s.1, s.2, s.3) {
        lemma_cross_touch(l, t, r, t, s.0, s.1, s.2, s.3)
    } else if segments_cross(l, b, r, b, s.0, s.1, s.2, s.3) {
        lemma_cross_touch(l, b, r, b, s.0, s.1, s.2, s.3)
    } else if segments_cross(l, t, l, b, s.0, s.1, s.2, s.3) {
        lemma_cross_touch(l, t, l, b, s.0, s.1, s.2, s.3)
    } else {
        lemma_cross_touch(r, t, r, b, s.0, s.1, s.2, s.3)
    };
    assert(on_square_outline(x, y, p.0, p.1));
    assert(on_axis_segment(p.0, p.1, wall_segment(cx, cy, m.tile_size as int, f)));
}

/// A player square collides with every wall it touches: when a point of
/// the square's outline lies on a wall of a tile of the map at most one
/// tile away, in each direction, from the tile that holds the square's
/// corner `(x, y)`, the position collides (see `pos_collides`, which
/// `is_pos_colliding` computes), whichever side of the square the point is
/// on.
pub proof fn law_outline_touch_collides(m: TileMap, x: int, y: int, cx: int, cy: int, f: int, px: int, py: int)
    requires
        m.well_formed(),
        m.in_grid(cx, cy),
        tile_of(x, m.tile_size as int) - 1 <= cx <= tile_of(x, m.tile_size as int) + 1,
        tile_of(y, m.tile_size as int) - 1 <= cy <= tile_of(y, m.tile_size as int) + 1,
        0 <= f < 4,
        has_wall(m.tile(cx, cy), f),
        on_square_outline(x, y, px, py),
        on_axis_segment(px, py, wall_segment(cx, cy, m.tile_size as int, f)),
    ensures
        pos_collides(m, x, y),
{
    lemma_grid_index(cx, cy, m.tiles_x as int, m.tiles_y as int);
    assert(probed(m, tile_of(x, m.tile_size as int), tile_of(y, m.tile_size as int), cx, cy));
    let s = wall_segment(cx, cy, m.tile_size as int, f);
    let l = x;
    let r = x + PLAYER_SIZE - 1;
    let t = y;
    let b = y + PLAYER_SIZE - 1;
    if py == t {
        lemma_touch_crosses(l, t, r, t, s.0, s.1, s.2, s.3, px, py);
    } else if py == b {
        lemma_touch_crosses(l, b, r, b, s.0, s.1, s.2, s.3, px, py);
    } else if px == l {
        lemma_touch_crosses(l, t, l, b, s.0, s.1, s.2, s.3, px, py);
    } else {
        lemma_touch_crosses(r, t, r, b, s.0, s.1, s.2, s.3, px, py);
    }
    assert(box_hits(x, y, s));
    assert(wall_hit(m, x, y, cx, cy, f));
    lemma_hit_collides(m, x, y, cx, cy, f);
}

/// Whether the player square at `(x, y)` crosses segment `s`.
fn box_crosses(x: isize, y: isize, s: (isize, isize, isize, isize)) -> (r: bool)
    requires
        -0x80_0000 <= x <= 0x80_0000,
        -0x80_0000 <= y <= 0x80_0000,
        small_coord(s.0 as int),
        small_coord(s.1 as int),
        small_coord(s.2 as int),
        small_coord(s.3 as int),
    ensures
        r == box_hits(x as int, y as int, (s.0 as int, s.1 as int, s.2 as int, s.3 as int)),
{
    let l = x;
    let r = x + PLAYER_SIZE as isize - 1;
    let t = y;
    let b = y + PLAYER_SIZE as isize - 1;
    line_intersects_line(l, t, r, t, s.0, s.1, s.2, s.3) || line_intersects_line(
        l,
        b,
        r,
        b,
        s.0,
        s.1,
        s.2,
        s.3,
    ) || line_intersects_line(l, t, l, b, s.0, s.1, s.2, s.3) || line_intersects_line(
        r,
        t,
        r,
        b,
        s.0,
        s.1,
        s.2,
        s.3,
    )
}

/// Whether the player square at `(x, y)` touches a wall: the walls of the
/// cells around the tile that holds `(x, y)` (see `probed`) are tested
/// against the four sides of the square (see `pos_collides`).
pub fn is_pos_colliding(x: isize, y: isize, map: &TileMap) -> (r: bool)
    requires
        collision_bounds(*map, x as int, y as int),
    ensures
        r == pos_collides(*map, x as int, y as int),
{
    let ts = map.tile_size as isize;
    let txs = map.tiles_x as isize;
    let tys = map.tiles_y as isize;
    proof {
        assert(map.tiles_x <= 0x80_0000) by (nonlinear_arith)
            requires
                map.tiles_x * map.tile_size <= 0x80_0000,
                map.tile_size > 0,
        ;
        assert(map.tiles_y <= 0x80_0000) by (nonlinear_arith)
            requires
                map.tiles_y * map.tile_size <= 0x80_0000,
                map.tile_size > 0,
        ;
    }
    let tile_x = if x < 0 { 0 } else { x / ts };
    let tile_y = if y < 0 { 0 } else { y / ts };
    let ghost gx = tile_of(x as int, map.tile_size as int);
    let ghost gy = tile_of(y as int, map.tile_size as int);
    assert(tile_x == gx && tile_y == gy);
    proof {
        assert(0 <= tile_x <= 0x80_0000) by (nonlinear_arith)
            requires
                tile_x == (if x < 0 { 0 } else { x / ts }),
                x <= 0x80_0000,
                ts > 0,
        ;
        assert(0 <= tile_y <= 0x80_0000) by (nonlinear_arith)
            requires
                tile_y == (if y < 0 { 0 } else { y / ts }),
                y <= 0x80_0000,
                ts > 0,
        ;
    }
    let min_x = tile_x - 1;
    let max_x = if tile_x + 1 < txs - 1 { tile_x + 1 } else { txs - 1 };
    let min_y = tile_y - 1;
    let max_y = if tile_y + 1 < tys - 1 { tile_y + 1 } else { tys - 1 };
    let n = map.tiles.len();
    let mut cy = min_y;
    while cy <= max_y
        invariant
            min_y <= cy,
            cy <= max_y + 1 || cy == min_y,
            min_y == tile_y - 1,
            max_y <= tile_y + 1,
            max_y <= tys - 1,
            0 <= tile_y <= 0x80_0000,
            0 <= tile_x <= 0x80_0000,
            min_x == tile_x - 1,
            max_x <= tile_x + 1,
            max_x == (if tile_x + 1 < txs - 1 { tile_x + 1 } else { txs - 1 }),
            max_y == (if tile_y + 1 < tys - 1 { tile_y + 1 } else { tys - 1 }),
            tile_x == gx,
            tile_y == gy,
            gx == tile_of(x as int, map.tile_size as int),
            gy == tile_of(y as int, map.tile_size as int),
            ts as int == map.tile_size as int,
            txs == map.tiles_x,
            tys == map.tiles_y,
            n == map.tiles@.len(),
            collision_bounds(*map, x as int, y as int),
            map.tiles_x <= 0x80_0000,
            map.tiles_y <= 0x80_0000,
            forall|px: int, py: int, f: int|
                probed(*map, gx, gy, px, py) && py < cy ==> !#[trigger] wall_hit(*map, x as int, y as int, px, py, f),
        decreases max_y + 1 - cy,
    {
        let mut cx = min_x;
        while cx <= max_x
            invariant
                min_x <= cx,
                cx <= max_x + 1 || cx == min_x,
                min_y <= cy <= max_y,
                min_y == tile_y - 1,
                max_y <= tile_y + 1,
                max_y <= tys - 1,
                0 <= tile_y <= 0x80_0000,
                0 <= tile_x <= 0x80_0000,
                min_x == tile_x - 1,
                max_x <= tile_x + 1,
                max_x == (if tile_x + 1 < txs - 1 { tile_x + 1 } else { txs - 1 }),
                max_y == (if tile_y + 1 < tys - 1 { tile_y + 1 } else { tys - 1 }),
                tile_x == gx,
                tile_y == gy,
                gx == tile_of(x as int, map.tile_size as int),
                gy == tile_of(y as int, map.tile_size as int),
                ts as int == map.tile_size as int,
                txs == map.tiles_x,
                tys == map.tiles_y,
                n == map.tiles@.len(),
                collision_bounds(*map, x as int, y as int),
                map.tiles_x <= 0x80_0000,
                map.tiles_y <= 0x80_0000,
                forall|px: int, py: int, f: int|
                    probed(*map, gx, gy, px, py) && (py < cy || (py == cy && px < cx)) ==> !#[trigger] wall_hit(
                        *map,
                        x as int,
                        y as int,
                        px,
                        py,
                        f,
                    ),
            decreases max_x + 1 - cx,
        {
            proof {
                assert(-0x80_0001 <= cy * txs + cx <= 0x80_0001 * 0x80_0001) by (nonlinear_arith)
                    requires
                        -1 <= cy <= 0x80_0000,
                        -1 <= cx <= 0x80_0000,
                        0 < txs <= 0x80_0000,
                ;
            }
            let index = (cy as i64) * (txs as i64) + (cx as i64);
            if index >= 0 && (index as u64) < (n as u64) {
                let tile = map.tiles[index as usize];
                proof {
                    let t = ts as int;
                    let w = map.tiles_x as int;
                    let h = map.tiles_y as int;
                    assert(-0x80_0000 <= cx * t <= 0x80_0000 && -0x80_0000 <= (cx + 1) * t <= 0x80_0000)
                        by (nonlinear_arith)
                        requires
                            -1 <= cx <= w - 1,
                            0 < t <= 0x80_0000,
                            w * t <= 0x80_0000,
                    ;
                    assert(-0x80_0000 <= cy * t <= 0x80_0000 && -0x80_0000 <= (cy + 1) * t <= 0x80_0000)
                        by (nonlinear_arith)
                        requires
                            -1 <= cy <= h - 1,
                            0 < t <= 0x80_0000,
                            h * t <= 0x80_0000,
                    ;
                    assert(probed(*map, gx, gy, cx as int, cy as int));
                }
                let h0 = tile.up && box_crosses(x, y, map.wall_coords(cx, cy, 0));
                let h1 = tile.right && box_crosses(x, y, map.wall_coords(cx, cy, 1));
                let h2 = tile.down && box_crosses(x, y, map.wall_coords(cx, cy, 2));
                let h3 = tile.left && box_crosses(x, y, map.wall_coords(cx, cy, 3));
                let ghost c = cx as int;
                let ghost r = cy as int;
                assert(h0 == wall_hit(*map, x as int, y as int, c, r, 0));
                assert(h1 == wall_hit(*map, x as int, y as int, c, r, 1));
                assert(h2 == wall_hit(*map, x as int, y as int, c, r, 2));
                assert(h3 == wall_hit(*map, x as int, y as int, c, r, 3));
                if h0 || h1 || h2 || h3 {
                    proof {
                        let f: int = if h0 { 0 } else if h1 { 1 } else if h2 { 2 } else { 3 };
                        lemma_hit_collides(*map, x as int, y as int, c, r, f);
                    }
                    return true;
                }
                assert forall|f: int| !#[trigger] wall_hit(*map, x as int, y as int, cx as int, cy as int, f) by {
                    if 0 <= f < 4 && has_wall(map.tiles@[cy * map.tiles_x + cx], f) {
                        assert(f == 0 || f == 1 || f == 2 || f == 3);
                    }
                }
            }
            cx = cx + 1;
        }
        cy = cy + 1;
    }
    false
}

} // verus!
