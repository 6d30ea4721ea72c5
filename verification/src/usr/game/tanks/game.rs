//! The tank game: the game state together with its renderer, and the rules
//! that change the state (players joining and leaving, input, shooting,
//! hits, respawning, maps and the network forms of the state).
use vstd::prelude::*;
use crate::sys::mouse::MouseEvent;
use crate::usr::game::tanks::bullet::Bullet;
use crate::usr::game::tanks::map::{
    TileMap, walls_from_draws, map_bytes, is_map_data, header_field, decoded_tiles, is_valid_map_data,
    holds, removed_inner_walls, wall_segment, wall_count, areas_valid, side_fits, join_from, views, generated_map, tile_fits, walls_fit, grid_fits,
    lemma_grid_walls_fit, lemma_grid_index, lemma_map_round_trip,
};
use crate::usr::game::tanks::player::{
    Player, box_hits, pos_collides, probed, tile_of, wall_hit, segments_cross, ratio_in_unit,
};
use crate::usr::game::tanks::renderer::{Renderer, Color, wall_pixels, lemma_wall_pixels_same, stat_paint, has_wall};
use crate::sys::vga::framebuffer::{
    Font, paint_over, paint_set, rect_paint, copy_paint, no_paint, union_set, drawn_line, overlay,
    points_paint, line_points, clamp_below,
};
use crate::usr::game::tanks::state::{
    GameState, GUI_WIDTH, MAX_AMMO, PLAYER_SIZE, POINTS_PER_KILL, POINTS_PER_DEATH_MINUS, state_bytes, is_state_data, decoded_players, decoded_bullets,
    f64_holds_nat, f64_bits_of_usize, read_le_u32, GUI_HEIGHT_PER_PLAYER,
};
use crate::usr::game::tanks::userinput::{UserInput, input_after, mouse_x_fits, mouse_y_fits};

verus! {

/// Bits per pixel of the screen.
pub const COLOR_DEPTH: u8 = 8;

/// Number of tile columns of a generated map.
pub const TILES_X: usize = 12;

/// Number of tile rows of a generated map.
pub const TILES_Y: usize = 10;

/// Side length of a tile, in pixels.
pub const TILE_SIZE: usize = 20;

/// Some player has identifier `id`.
pub open spec fn has_id(s: Seq<Player>, id: usize) -> bool {
    exists|i: int| 0 <= i < s.len() && #[trigger] s[i].id == id
}

/// `i` is the index of the first player with identifier `id`.
pub open spec fn is_first(s: Seq<Player>, id: usize, i: int) -> bool {
    &&& 0 <= i < s.len()
    &&& s[i].id == id
    &&& forall|k: int| 0 <= k < i ==> #[trigger] s[k].id != id
}

/// No two players share an identifier.
pub open spec fn distinct_ids(s: Seq<Player>) -> bool {
    forall|i: int, j: int| 0 <= i < j < s.len() ==> #[trigger] s[i].id != #[trigger] s[j].id
}

/// Every wall of the map can be drawn: its coordinates, and the steps that
/// compute them, stay within `isize` (see `walls_fit`).
pub open spec fn drawable_map(m: TileMap) -> bool {
    walls_fit(m.tiles_x as int, m.tiles_y as int, m.tile_size as int, m.tiles@)
}

/// The map held by a map's byte form can be drawn (see `drawable_map`).
pub open spec fn header_drawable(data: Seq<u8>) -> bool {
    walls_fit(
        header_field(data, 2) as int,
        header_field(data, 3) as int,
        header_field(data, 4) as int,
        decoded_tiles(data),
    )
}

/// Whether the wall on side `f` of tile `(x, y)` of a grid of `tx` by `ty`
/// tiles of `ts` pixels can be computed in `isize` (see `side_fits`).
fn side_fits_at(tx: usize, ty: usize, ts: usize, x: usize, y: usize, f: usize) -> (b: bool)
    requires
        x < tx,
        y < ty,
        f < 4,
    ensures
        b == side_fits(tx as int, ty as int, ts as int, x as int, y as int, f as int),
{
    if tx > isize::MAX as usize || ty > isize::MAX as usize || ts > isize::MAX as usize {
        return false;
    }
    proof {
        assert(x * ts <= isize::MAX * isize::MAX && y * ts <= isize::MAX * isize::MAX) by (nonlinear_arith)
            requires
                0 <= x <= isize::MAX,
                0 <= y <= isize::MAX,
                0 <= ts <= isize::MAX,
        ;
        assert(isize::MAX * isize::MAX + isize::MAX < 0x1_0000_0000_0000_0000_0000_0000_0000_0000) by (nonlinear_arith)
            requires
                0 <= isize::MAX <= 0x7fff_ffff_ffff_ffff,
        ;
    }
    let m = isize::MAX as u128;
    let left = (x as u128) * (ts as u128);
    let right = left + ts as u128;
    let top = (y as u128) * (ts as u128);
    let bottom = top + ts as u128;
    if f == 0 {
        left <= m && right <= m && top <= m
    } else if f == 1 {
        right <= m && top <= m && bottom <= m
    } else if f == 2 {
        left <= m && right <= m && bottom <= m
    } else {
        left <= m && top <= m && bottom <= m
    }
}

/// Whether every wall of tile `(x, y)` of the map can be drawn (see
/// `tile_fits`).
fn tile_fits_at(m: &TileMap, x: usize, y: usize) -> (b: bool)
    requires
        m.well_formed(),
        x < m.tiles_x,
        y < m.tiles_y,
    ensures
        b == tile_fits(m.tiles_x as int, m.tiles_y as int, m.tile_size as int, m.tiles@, x as int, y as int),
{
    let len = m.tiles.len();
    proof {
        lemma_grid_index(x as int, y as int, m.tiles_x as int, m.tiles_y as int);
    }
    let t = m.tiles[y * m.tiles_x + x];
    let tx: usize = m.tiles_x;
    let ty: usize = m.tiles_y;
    let ts: usize = m.tile_size;
    (!t.up || side_fits_at(tx, ty, ts, x, y, 0)) && (!t.right || side_fits_at(tx, ty, ts, x, y, 1)) && (!t.down
        || side_fits_at(tx, ty, ts, x, y, 2)) && (!t.left || side_fits_at(tx, ty, ts, x, y, 3))
}

/// Whether the map can be drawn (see `drawable_map`).
pub fn map_is_drawable(m: &TileMap) -> (b: bool)
    requires
        m.well_formed(),
    ensures
        b == drawable_map(*m),
{
    let tx = m.tiles_x;
    let ty = m.tiles_y;
    let mut y: usize = 0;
    while y < ty
        invariant
            0 <= y <= ty,
            tx == m.tiles_x,
            ty == m.tiles_y,
            m.well_formed(),
            forall|i: int, j: int|
                0 <= i < tx && 0 <= j < y ==> #[trigger] tile_fits(tx as int, ty as int, m.tile_size as int, m.tiles@, i, j),
        decreases ty - y,
    {
        let mut x: usize = 0;
        while x < tx
            invariant
                0 <= x <= tx,
                0 <= y < ty,
                tx == m.tiles_x,
                ty == m.tiles_y,
                m.well_formed(),
                forall|i: int, j: int|
                    0 <= i < tx && 0 <= j < y ==> #[trigger] tile_fits(tx as int, ty as int, m.tile_size as int, m.tiles@, i, j),
                forall|i: int| 0 <= i < x ==> #[trigger] tile_fits(tx as int, ty as int, m.tile_size as int, m.tiles@, i, y as int),
            decreases tx - x,
        {
            if !tile_fits_at(m, x, y) {
                return false;
            }
            x = x + 1;
        }
        proof {
            assert forall|i: int, j: int| 0 <= i < tx && 0 <= j < y + 1 implies #[trigger] tile_fits(
                tx as int,
                ty as int,
                m.tile_size as int,
                m.tiles@,
                i,
                j,
            ) by {
                if j == y {
                    assert(tile_fits(tx as int, ty as int, m.tile_size as int, m.tiles@, i, y as int));
                }
            }
        }
        y = y + 1;
    }
    true
}

/// Whether the bytes hold a map that can be drawn (see `is_map_data` and
/// `header_drawable`).
pub fn is_drawable_map_data(data: &[u8]) -> (b: bool)
    ensures
        b == (is_map_data(data@) && header_drawable(data@)),
{
    if !is_valid_map_data(data) {
        return false;
    }
    let m = TileMap::deserialize(data);
    map_is_drawable(&m)
}

/// The grid of the map spans at most `isize::MAX` pixels each way (see
/// `grid_fits`): then every wall that the map could have can be drawn.
pub open spec fn grid_drawable(m: TileMap) -> bool {
    grid_fits(m.tiles_x as int, m.tiles_y as int, m.tile_size as int)
}

/// The byte form of a map says that the map can be drawn exactly when the
/// map can (see `header_drawable` and `drawable_map`); so it does whenever
/// the map's grid spans at most `isize::MAX` pixels each way.
pub proof fn lemma_map_bytes_drawable(m: TileMap)
    requires
        m.well_formed(),
        m.size_x <= u32::MAX,
        m.size_y <= u32::MAX,
        m.tiles_x <= u32::MAX,
        m.tiles_y <= u32::MAX,
        m.tile_size <= u32::MAX,
    ensures
        header_drawable(map_bytes(m)) == drawable_map(m),
        grid_drawable(m) ==> header_drawable(map_bytes(m)),
{
    lemma_map_round_trip(m);
    if grid_drawable(m) {
        lemma_grid_walls_fit(m.tiles_x as int, m.tiles_y as int, m.tile_size as int, m.tiles@);
    }
}

/// Players can be placed on the map: it has tiles, a tile holds a player,
/// and its pixel size fits a `usize` and stays below `2^53`, so that
/// positions are exact as `f64`.
pub open spec fn spawnable_map(m: TileMap) -> bool {
    &&& m.tiles_x > 0
    &&& m.tiles_y > 0
    &&& m.tile_size >= PLAYER_SIZE
    &&& m.tiles_x * m.tile_size < 0x20_0000_0000_0000
    &&& m.tiles_y * m.tile_size < 0x20_0000_0000_0000
    &&& m.tiles_x * m.tile_size <= usize::MAX
    &&& m.tiles_y * m.tile_size <= usize::MAX
}

/// The spawn column of a player placed by random number `r` on a row or
/// column of `n` tiles of `ts` pixels: the centre of tile `r % n`.
pub open spec fn spawn_coord(r: int, n: int, ts: int) -> int {
    (r % n) * ts + (ts - PLAYER_SIZE) / 2
}

/// Parallel segments that do not lie on one line do not meet.
proof fn lemma_parallel_apart(x1: int, y1: int, x2: int, y2: int, x3: int, y3: int, x4: int, y4: int)
    requires
        (y4 - y3) * (x2 - x1) - (x4 - x3) * (y2 - y1) == 0,
        (x4 - x3) * (y1 - y3) - (y4 - y3) * (x1 - x3) != 0,
    ensures
        !segments_cross(x1, y1, x2, y2, x3, y3, x4, y4),
{
}

/// Segments whose lines cross outside the first segment do not meet.
proof fn lemma_cross_outside(x1: int, y1: int, x2: int, y2: int, x3: int, y3: int, x4: int, y4: int)
    requires
        (y4 - y3) * (x2 - x1) - (x4 - x3) * (y2 - y1) != 0,
        !ratio_in_unit(
            (x4 - x3) * (y1 - y3) - (y4 - y3) * (x1 - x3),
            (y4 - y3) * (x2 - x1) - (x4 - x3) * (y2 - y1),
        ),
    ensures
        !segments_cross(x1, y1, x2, y2, x3, y3, x4, y4),
{
}

/// The player square at `(l, t)` meets no horizontal wall of positive
/// length `w` on a row `yw` outside the square's rows.
proof fn lemma_box_misses_row(l: int, t: int, xw: int, yw: int, w: int)
    requires
        w > 0,
        yw < t || yw > t + PLAYER_SIZE - 1,
    ensures
        !box_hits(l, t, (xw, yw, xw + w, yw)),
{
    let r = l + PLAYER_SIZE - 1;
    let b = t + PLAYER_SIZE - 1;
    let x4 = xw + w;
    // The top and bottom sides run along the wall on other rows.
    assert((yw - yw) * (r - l) - (x4 - xw) * (t - t) == 0 && (x4 - xw) * (t - yw) - (yw - yw) * (l - xw) != 0)
        by (nonlinear_arith)
        requires
            x4 - xw == w,
            w > 0,
            yw != t,
    ;
    lemma_parallel_apart(l, t, r, t, xw, yw, x4, yw);
    assert((yw - yw) * (r - l) - (x4 - xw) * (b - b) == 0 && (x4 - xw) * (b - yw) - (yw - yw) * (l - xw) != 0)
        by (nonlinear_arith)
        requires
            x4 - xw == w,
            w > 0,
            yw != b,
    ;
    lemma_parallel_apart(l, b, r, b, xw, yw, x4, yw);
    // The left and right sides cross the wall's row outside their length.
    assert((yw - yw) * (l - l) - (x4 - xw) * (b - t) == -7 * w && !ratio_in_unit(
        (x4 - xw) * (t - yw) - (yw - yw) * (l - xw),
        (yw - yw) * (l - l) - (x4 - xw) * (b - t),
    )) by (nonlinear_arith)
        requires
            x4 - xw == w,
            w > 0,
            b - t == 7,
            yw < t || yw > b,
    ;
    lemma_cross_outside(l, t, l, b, xw, yw, x4, yw);
    assert((yw - yw) * (r - r) - (x4 - xw) * (b - t) == -7 * w && !ratio_in_unit(
        (x4 - xw) * (t - yw) - (yw - yw) * (r - xw),
        (yw - yw) * (r - r) - (x4 - xw) * (b - t),
    )) by (nonlinear_arith)
        requires
            x4 - xw == w,
            w > 0,
            b - t == 7,
            yw < t || yw > b,
    ;
    lemma_cross_outside(r, t, r, b, xw, yw, x4, yw);
}

/// The player square at `(l, t)` meets no vertical wall of positive length
/// `w` in a column `xw` outside the square's columns.
proof fn lemma_box_misses_column(l: int, t: int, xw: int, yw: int, w: int)
    requires
        w > 0,
        xw < l || xw > l + PLAYER_SIZE - 1,
    ensures
        !box_hits(l, t, (xw, yw, xw, yw + w)),
{
    let r = l + PLAYER_SIZE - 1;
    let b = t + PLAYER_SIZE - 1;
    let y4 = yw + w;
    // The top and bottom sides cross the wall's column outside their length.
    assert((y4 - yw) * (r - l) - (xw - xw) * (t - t) == 7 * w && !ratio_in_unit(
        (xw - xw) * (t - yw) - (y4 - yw) * (l - xw),
        (y4 - yw) * (r - l) - (xw - xw) * (t - t),
    )) by (nonlinear_arith)
        requires
            y4 - yw == w,
            w > 0,
            r - l == 7,
            xw < l || xw > r,
    ;
    lemma_cross_outside(l, t, r, t, xw, yw, xw, y4);
    assert((y4 - yw) * (r - l) - (xw - xw) * (b - b) == 7 * w && !ratio_in_unit(
        (xw - xw) * (b - yw) - (y4 - yw) * (l - xw),
        (y4 - yw) * (r - l) - (xw - xw) * (b - b),
    )) by (nonlinear_arith)
        requires
            y4 - yw == w,
            w > 0,
            r - l == 7,
            xw < l || xw > r,
    ;
    lemma_cross_outside(l, b, r, b, xw, yw, xw, y4);
    // The left and right sides run along the wall in other columns.
    assert((y4 - yw) * (l - l) - (xw - xw) * (b - t) == 0 && (xw - xw) * (t - yw) - (y4 - yw) * (l - xw) != 0)
        by (nonlinear_arith)
        requires
            y4 - yw == w,
            w > 0,
            xw != l,
    ;
    lemma_parallel_apart(l, t, l, b, xw, yw, xw, y4);
    assert((y4 - yw) * (r - r) - (xw - xw) * (b - t) == 0 && (xw - xw) * (t - yw) - (y4 - yw) * (r - xw) != 0)
        by (nonlinear_arith)
        requires
            y4 - yw == w,
            w > 0,
            xw != r,
    ;
    lemma_parallel_apart(r, t, r, b, xw, yw, xw, y4);
}

/// A player placed at the centre of a tile (see `spawn_coord`, as
/// `add_player` and `get_random_spawn_position` place one) touches no wall,
/// whatever walls the map holds, when a tile is at least two pixels wider
/// than a player.
pub proof fn lemma_spawn_touches_no_wall(m: TileMap, r_x: int, r_y: int)
    requires
        m.tiles_x > 0,
        m.tiles_y > 0,
        m.tile_size >= PLAYER_SIZE + 2,
    ensures
        !pos_collides(
            m,
            spawn_coord(r_x, m.tiles_x as int, m.tile_size as int),
            spawn_coord(r_y, m.tiles_y as int, m.tile_size as int),
        ),
{
    let ts = m.tile_size as int;
    let tx = r_x % (m.tiles_x as int);
    let ty = r_y % (m.tiles_y as int);
    let h = (ts - PLAYER_SIZE) / 2;
    let x = spawn_coord(r_x, m.tiles_x as int, ts);
    let y = spawn_coord(r_y, m.tiles_y as int, ts);
    assert(x == tx * ts + h && y == ty * ts + h);
    assert(1 <= h && h + PLAYER_SIZE < ts);
    assert(tx >= 0 && ty >= 0);
    assert(tile_of(x, ts) == tx) by (nonlinear_arith)
        requires
            x == tx * ts + h,
            0 <= h < ts,
            tx >= 0,
            tile_of(x, ts) == (if x < 0 { 0 } else { x / ts }),
    ;
    assert(tile_of(y, ts) == ty) by (nonlinear_arith)
        requires
            y == ty * ts + h,
            0 <= h < ts,
            ty >= 0,
            tile_of(y, ts) == (if y < 0 { 0 } else { y / ts }),
    ;
    assert forall|cx: int, cy: int, f: int|
        probed(m, tile_of(x, ts), tile_of(y, ts), cx, cy) implies !#[trigger] wall_hit(m, x, y, cx, cy, f) by {
        if 0 <= f < 4 {
            let seg = wall_segment(cx, cy, ts, f);
            // The columns and rows of wall lines near the tile lie outside the square.
            assert((cx + 1) * ts == cx * ts + ts && (cy + 1) * ts == cy * ts + ts) by (nonlinear_arith);
            assert(cx * ts + ts <= tx * ts || cx * ts >= tx * ts + ts || cx * ts == tx * ts) by (nonlinear_arith)
                requires
                    tx - 1 <= cx <= tx + 1,
                    ts > 0,
            ;
            assert(cy * ts + ts <= ty * ts || cy * ts >= ty * ts + ts || cy * ts == ty * ts) by (nonlinear_arith)
                requires
                    ty - 1 <= cy <= ty + 1,
                    ts > 0,
            ;
            if f == 0 {
                lemma_box_misses_row(x, y, cx * ts, cy * ts, ts);
            } else if f == 1 {
                lemma_box_misses_column(x, y, cx * ts + ts - 1, cy * ts, ts);
            } else if f == 2 {
                lemma_box_misses_row(x, y, cx * ts, cy * ts + ts - 1, ts);
            } else {
                lemma_box_misses_column(x, y, cx * ts, cy * ts, ts);
            }
        }
    }
}

/// A newly placed player with identifier `id` at position `(x, y)` (bit
/// patterns): alive, with no input, aim, points or time stamps, and full
/// ammo.
pub open spec fn fresh_player(id: usize, x: u64, y: u64) -> Player {
    Player {
        id,
        x,
        y,
        alive: true,
        time_of_death: 0,
        user_input: UserInput::idle(),
        pointing_to: (0, 0),
        points: 0,
        ammo: MAX_AMMO,
        last_shot: 0,
        last_reload_ammo: 0,
    }
}

/// Player `p` after the shooting step of a tick at time `now` (bit
/// pattern): an alive player who holds the trigger and has ammo fires when
/// `shot_ready` (enough time has passed since the last shot), spending one
/// bullet and noting the time; an alive player who does not fire that way
/// and lacks ammo reloads one bullet when `reload_ready` (enough time has
/// passed since the last reload), noting the time.
pub open spec fn after_shooting(p: Player, shot_ready: bool, reload_ready: bool, now: u64) -> Player {
    if !p.alive {
        p
    } else if p.user_input.shooting && p.ammo > 0 {
        if shot_ready {
            Player { ammo: (p.ammo - 1) as usize, last_shot: now, ..p }
        } else {
            p
        }
    } else if p.ammo < MAX_AMMO {
        if reload_ready {
            Player { ammo: (p.ammo + 1) as usize, last_reload_ammo: now, ..p }
        } else {
            p
        }
    } else {
        p
    }
}

/// The shooting step never changes a dead player, nor a player's
/// identity, position, life, input, aim, points or time of death. A live
/// player that holds the trigger with ammo left spends exactly one bullet
/// and notes `now` as its last shot when the shot is ready, and changes
/// nothing otherwise. A live player that cannot shoot (the trigger is not
/// held, or no ammo is left) and has fewer than `MAX_AMMO` bullets gains
/// exactly one bullet and notes `now` as its last reload when the reload is
/// ready, and changes nothing otherwise; a full one changes nothing. So
/// ammo never rises above `MAX_AMMO` when it was not above it.
pub proof fn law_shooting_step(p: Player, shot_ready: bool, reload_ready: bool, now: u64)
    ensures
        ({
            let q = after_shooting(p, shot_ready, reload_ready, now);
            &&& !p.alive ==> q == p
            &&& q.id == p.id && q.x == p.x && q.y == p.y && q.alive == p.alive
            &&& q.user_input == p.user_input && q.pointing_to == p.pointing_to
            &&& q.points == p.points && q.time_of_death == p.time_of_death
            &&& (p.alive && p.user_input.shooting && p.ammo > 0 && shot_ready) ==> (q.ammo + 1 == p.ammo
                && q.last_shot == now && q.last_reload_ammo == p.last_reload_ammo)
            &&& (p.alive && p.user_input.shooting && p.ammo > 0 && !shot_ready) ==> q == p
            &&& (p.alive && !(p.user_input.shooting && p.ammo > 0) && p.ammo < MAX_AMMO && reload_ready) ==> (
            q.ammo == p.ammo + 1 && q.last_reload_ammo == now && q.last_shot == p.last_shot)
            &&& (p.alive && !(p.user_input.shooting && p.ammo > 0) && (p.ammo >= MAX_AMMO || !reload_ready))
                ==> q == p
            &&& p.ammo <= MAX_AMMO ==> q.ammo <= MAX_AMMO
        }),
{
}

/// Player `p` fires a bullet in the shooting step.
pub open spec fn fires(p: Player, shot_ready: bool) -> bool {
    p.alive && p.user_input.shooting && p.ammo > 0 && shot_ready
}

/// The indices below `k` of the players that fire, in increasing order.
pub open spec fn firing(s: Seq<Player>, ready: Seq<bool>, k: int) -> Seq<usize>
    decreases k,
{
    if k <= 0 {
        Seq::empty()
    } else if fires(s[k - 1], ready[k - 1]) {
        firing(s, ready, k - 1).push((k - 1) as usize)
    } else {
        firing(s, ready, k - 1)
    }
}

/// The index of the first player from index `j` on that a bullet shot by
/// `shooter` hits: alive, not the shooter, and holding the bullet in its
/// square (`inside[p]`); -1 if there is none.
pub open spec fn first_hit(s: Seq<Player>, shooter: usize, inside: Seq<bool>, j: int) -> int
    decreases s.len() - j,
{
    if j < 0 || j >= s.len() {
        -1
    } else if s[j].alive && s[j].id != shooter && inside[j] {
        j
    } else {
        first_hit(s, shooter, inside, j + 1)
    }
}

/// Player `p` hit at time `now`: dead since `now`, and losing
/// `POINTS_PER_DEATH_MINUS` points (not below zero).
pub open spec fn killed(p: Player, now: u64) -> Player {
    Player {
        alive: false,
        time_of_death: now,
        points: if p.points >= POINTS_PER_DEATH_MINUS {
            (p.points - POINTS_PER_DEATH_MINUS) as usize
        } else {
            0
        },
        ..p
    }
}

/// The players, the shooters to award and which bullets hit, after the
/// first `k` bullets were checked in order: each bullet hits the first
/// player it can hit (see `first_hit`) at that moment, that player dies,
/// and the bullet's shooter is noted for an award.
pub open spec fn collide(
    s: Seq<Player>,
    bullets: Seq<Bullet>,
    inside: Seq<Seq<bool>>,
    now: u64,
    k: int,
) -> (Seq<Player>, Seq<usize>, Seq<bool>)
    decreases k,
{
    if k <= 0 {
        (s, Seq::empty(), Seq::empty())
    } else {
        let prev = collide(s, bullets, inside, now, k - 1);
        let h = first_hit(prev.0, bullets[k - 1].shot_by, inside[k - 1], 0);
        if h < 0 {
            (prev.0, prev.1, prev.2.push(false))
        } else {
            (prev.0.update(h, killed(prev.0[h], now)), prev.1.push(bullets[k - 1].shot_by), prev.2.push(true))
        }
    }
}

/// Player `p` after the awards: `POINTS_PER_KILL` more points if its
/// identifier is among the shooters to award (once, however often).
pub open spec fn awarded(p: Player, shooters: Seq<usize>) -> Player {
    if shooters.contains(p.id) {
        Player { points: (p.points + POINTS_PER_KILL) as usize, ..p }
    } else {
        p
    }
}

/// The bullets whose flag in `hit` is false, in their order, among the
/// first `k`.
pub open spec fn unhit(bullets: Seq<Bullet>, hit: Seq<bool>, k: int) -> Seq<Bullet>
    decreases k,
{
    if k <= 0 {
        Seq::empty()
    } else if hit[k - 1] {
        unhit(bullets, hit, k - 1)
    } else {
        unhit(bullets, hit, k - 1).push(bullets[k - 1])
    }
}

/// Player `p` after the respawn step: a dead player whose respawn time has
/// come (`due`) is alive again at the position whose bit patterns are `x`
/// and `y`, with five bullets and no time of death.
pub open spec fn respawned(p: Player, x: u64, y: u64) -> Player {
    Player { x, y, alive: true, ammo: 5, time_of_death: 0, ..p }
}

/// Shows that skipping a player that cannot be hit keeps the first hit.
proof fn lemma_first_hit_skip(s: Seq<Player>, shooter: usize, inside: Seq<bool>, j: int)
    requires
        0 <= j < s.len(),
        !(s[j].alive && s[j].id != shooter && inside[j]),
    ensures
        first_hit(s, shooter, inside, j) == first_hit(s, shooter, inside, j + 1),
{
}

/// The first hit, if any, lies at or after `j` and is a player that can be
/// hit.
proof fn lemma_first_hit_range(s: Seq<Player>, shooter: usize, inside: Seq<bool>, j: int)
    requires
        0 <= j,
    ensures
        first_hit(s, shooter, inside, j) == -1 || (j <= first_hit(s, shooter, inside, j) < s.len() && {
            let h = first_hit(s, shooter, inside, j);
            s[h].alive && s[h].id != shooter && inside[h]
        }),
    decreases s.len() - j,
{
    if j < s.len() {
        lemma_first_hit_range(s, shooter, inside, j + 1);
    }
}

/// The collision step keeps the number of players and notes one flag per
/// bullet.
proof fn lemma_collide_lengths(
    s: Seq<Player>,
    bullets: Seq<Bullet>,
    inside: Seq<Seq<bool>>,
    now: u64,
    k: int,
)
    requires
        0 <= k,
    ensures
        collide(s, bullets, inside, now, k).0.len() == s.len(),
        collide(s, bullets, inside, now, k).2.len() == k,
    decreases k,
{
    if k > 0 {
        lemma_collide_lengths(s, bullets, inside, now, k - 1);
        let prev = collide(s, bullets, inside, now, k - 1);
        lemma_first_hit_range(prev.0, bullets[k - 1].shot_by, inside[k - 1], 0);
    }
}

/// The first `n` players drawn at pixel positions `px` (the truncated
/// `f64` positions): each alive player a square of `PLAYER_SIZE` pixels in
/// the colour of its identifier, right of the statistics panel.
pub open spec fn players_paint(s: Seq<Player>, px: Seq<(isize, isize)>, n: int) -> spec_fn(int, int) -> Option<u8>
    decreases n,
{
    if n <= 0 {
        no_paint()
    } else {
        let prev = players_paint(s, px, n - 1);
        if s[n - 1].alive {
            paint_over(
                rect_paint(
                    px[n - 1].0 + GUI_WIDTH,
                    px[n - 1].1 as int,
                    PLAYER_SIZE as int,
                    PLAYER_SIZE as int,
                    s[n - 1].id as u8,
                ),
                prev,
            )
        } else {
            prev
        }
    }
}

/// Pixel `(qx, qy)` lies in the square drawn for a player at pixel
/// position `p`, right of the statistics panel.
pub open spec fn in_player_square(p: (isize, isize), qx: int, qy: int) -> bool {
    &&& p.0 + GUI_WIDTH <= qx < p.0 + GUI_WIDTH + PLAYER_SIZE
    &&& p.1 <= qy < p.1 + PLAYER_SIZE
}

/// Only alive players are drawn: a pixel that the players' layer colours
/// lies in the square of an alive player among the first `n` and has that
/// player's colour; and every pixel in the square of an alive player is
/// coloured by some alive player.
pub proof fn law_only_alive_players_paint(s: Seq<Player>, px: Seq<(isize, isize)>, n: int, qx: int, qy: int)
    requires
        0 <= n <= s.len(),
        n <= px.len(),
    ensures
        players_paint(s, px, n)(qx, qy) is Some ==> exists|i: int|
            0 <= i < n && s[i].alive && in_player_square(px[i], qx, qy) && players_paint(s, px, n)(qx, qy)
                == Some(#[trigger] s[i].id as u8),
        (exists|i: int| 0 <= i < n && #[trigger] s[i].alive && in_player_square(px[i], qx, qy)) ==> players_paint(
            s,
            px,
            n,
        )(qx, qy) is Some,
    decreases n,
{
    if n > 0 {
        law_only_alive_players_paint(s, px, n - 1, qx, qy);
        let c = players_paint(s, px, n)(qx, qy);
        if c is Some {
            if s[n - 1].alive && in_player_square(px[n - 1], qx, qy) {
                assert(c == Some(s[n - 1].id as u8));
            } else {
                let i = choose|i: int|
                    0 <= i < n - 1 && s[i].alive && in_player_square(px[i], qx, qy) && players_paint(s, px, n - 1)(
                        qx,
                        qy,
                    ) == Some(#[trigger] s[i].id as u8);
                assert(c == players_paint(s, px, n - 1)(qx, qy));
                assert(0 <= i < n && s[i].alive && in_player_square(px[i], qx, qy) && c == Some(s[i].id as u8));
            }
        }
        if exists|i: int| 0 <= i < n && #[trigger] s[i].alive && in_player_square(px[i], qx, qy) {
            let i = choose|i: int| 0 <= i < n && #[trigger] s[i].alive && in_player_square(px[i], qx, qy);
            if i < n - 1 {
                assert(players_paint(s, px, n - 1)(qx, qy) is Some);
            }
        }
    }
}

/// Where a dead player stands does not change the players' layer: moving
/// a player that is not alive to any position `p` leaves every pixel as
/// it was.
pub proof fn law_dead_player_unseen(
    s: Seq<Player>,
    px: Seq<(isize, isize)>,
    n: int,
    i: int,
    p: (isize, isize),
    qx: int,
    qy: int,
)
    requires
        0 <= i < px.len(),
        i < s.len(),
        !s[i].alive,
        n <= s.len(),
        n <= px.len(),
    ensures
        players_paint(s, px.update(i, p), n)(qx, qy) == players_paint(s, px, n)(qx, qy),
    decreases n,
{
    if n > 0 {
        law_dead_player_unseen(s, px, n - 1, i, p, qx, qy);
    }
}

/// The first `n` bullets drawn at pixel positions `px`: each a square of 2
/// pixels in the colour of its shooter, right of the statistics panel.
pub open spec fn bullets_paint(bs: Seq<Bullet>, px: Seq<(isize, isize)>, n: int) -> spec_fn(int, int) -> Option<u8>
    decreases n,
{
    if n <= 0 {
        no_paint()
    } else {
        paint_over(
            rect_paint(px[n - 1].0 + GUI_WIDTH, px[n - 1].1 as int, 2, 2, bs[n - 1].shot_by as u8),
            bullets_paint(bs, px, n - 1),
        )
    }
}

/// The statistics boxes of the first `n` players (see `stat_paint`).
pub open spec fn stats_paint(s: Seq<Player>, font: Font, n: int) -> spec_fn(int, int) -> Option<u8>
    decreases n,
{
    if n <= 0 {
        no_paint()
    } else {
        paint_over(
            stat_paint(n - 1, s[n - 1].id, s[n - 1].points as nat, s[n - 1].ammo as int, font),
            stats_paint(s, font, n - 1),
        )
    }
}

/// The mouse cursor at `(x, y)` on a `w` by `h` screen: two lines of nine
/// pixels crossing there.
pub open spec fn cursor_paint(w: int, h: int, x: int, y: int, color: u8) -> spec_fn(int, int) -> Option<u8> {
    paint_set(
        union_set(
            |px: int, py: int| drawn_line(w, h, x - 4, y, x + 4, y, px, py),
            |px: int, py: int| drawn_line(w, h, x, y - 4, x, y + 4, px, py),
        ),
        color,
    )
}

/// A player square at map pixel position `p` can be drawn: moved past the
/// statistics column, its far corner stays within the range of `isize`.
pub open spec fn near(p: (isize, isize)) -> bool {
    p.0 + GUI_WIDTH + PLAYER_SIZE <= isize::MAX && p.1 + PLAYER_SIZE <= isize::MAX
}

/// A bullet at map pixel position `p` can be drawn: moved past the
/// statistics column, its far corner stays within the range of `isize`.
pub open spec fn near_bullet(p: (isize, isize)) -> bool {
    p.0 + GUI_WIDTH + 1 <= isize::MAX && p.1 + 1 <= isize::MAX
}

/// The main game structure: the game state and the renderer that draws it.
pub struct Game {
    pub game_state: GameState,
    pub renderer: Renderer,
}

/// Returns the index of the first player with identifier `id`, if any.
pub fn find_player(players: &Vec<Player>, id: usize) -> (r: Option<usize>)
    ensures
        match r {
            Some(i) => is_first(players@, id, i as int),
            None => !has_id(players@, id),
        },
{
    let mut i: usize = 0;
    while i < players.len()
        invariant
            0 <= i <= players@.len(),
            forall|k: int| 0 <= k < i ==> #[trigger] players@[k].id != id,
        decreases players@.len() - i,
    {
        if players[i].id == id {
            return Some(i);
        }
        i = i + 1;
    }
    None
}

impl Game {
    /// The map has one entry per tile and the renderer's buffers are set
    /// up.
    pub open spec fn inv(&self) -> bool {
        &&& self.game_state.map.well_formed()
        &&& self.renderer.inv()
    }

    /// The renderer's map buffer shows map `m`: wall pixels black, all
    /// others light gray (see `wall_pixels`).
    pub open spec fn shows_map(&self, m: TileMap) -> bool {
        let mb = self.renderer.spec_map_buffer();
        forall|px: int, py: int|
            mb.in_bounds(px, py) ==> #[trigger] mb.pixel(px, py) == (if wall_pixels(
                m,
                mb.spec_width(),
                mb.spec_height(),
            )(px, py) {
                Color::Black.spec_index()
            } else {
                Color::LightGray.spec_index()
            })
    }

    /// Everything but the players is unchanged.
    pub open spec fn only_players_changed(&self, old: &Game) -> bool {
        &&& self.game_state.map == old.game_state.map
        &&& self.game_state.bullets == old.game_state.bullets
        &&& self.game_state.current_player_index == old.game_state.current_player_index
        &&& self.game_state.last_tick == old.game_state.last_tick
        &&& self.renderer == old.renderer
    }

    /// Creates a game for a screen of `width` by `height` pixels: a map of
    /// `TILES_X` by `TILES_Y` tiles whose walls are generated from the
    /// random `draws` (exactly `generated_map`, see
    /// `TileMap::auto_set_walls`), no players or bullets, and a renderer
    /// for the screen and the map.
    pub fn new(width: usize, height: usize, draws: &[(bool, bool)]) -> (g: Game)
        requires
            width <= isize::MAX,
            height <= isize::MAX,
            height * width <= usize::MAX,
            draws@.len() == TILES_X * TILES_Y,
        ensures
            g.inv(),
            g.game_state.map.size_x == width,
            g.game_state.map.size_y == height,
            g.game_state.map.tiles_x == TILES_X,
            g.game_state.map.tiles_y == TILES_Y,
            g.game_state.map.tile_size == TILE_SIZE,
            walls_from_draws(g.game_state.map, draws@),
            g.game_state.map.tiles@ == generated_map(TILES_X as int, TILES_Y as int, draws@),
            g.game_state.players@.len() == 0,
            g.game_state.bullets@.len() == 0,
            g.game_state.current_player_index == 0,
            g.game_state.last_tick == 0,
            g.renderer.spec_screen() == (width as int, height as int),
            g.renderer.spec_tiles() == (TILES_X as int, TILES_Y as int, TILE_SIZE as int),
    {
        let mut map = TileMap::new(width, height, TILES_X, TILES_Y, TILE_SIZE);
        map.auto_set_walls(draws);
        let game_state = GameState::new(map);
        let renderer = Renderer::new(width, height, COLOR_DEPTH, TILES_X, TILES_Y, TILE_SIZE);
        Game { game_state, renderer }
    }

    /// Sets up the game before the first frame: generates the walls of the
    /// map anew from the random `draws` (exactly `generated_map`), clears the screen to light gray
    /// and draws the map into the renderer's map buffer. (Switching the
    /// screen to graphics mode and loading the palette are left to the
    /// caller.)
    pub fn init(&mut self, draws: &[(bool, bool)])
        requires
            old(self).inv(),
            draws@.len() == old(self).game_state.map.tiles@.len(),
            (old(self).game_state.map.tiles_x > 0) == (old(self).game_state.map.tiles_y > 0),
            grid_drawable(old(self).game_state.map),
        ensures
            final(self).inv(),
            final(self).game_state.map.same_shape(&old(self).game_state.map),
            walls_from_draws(final(self).game_state.map, draws@),
            final(self).game_state.map.tiles@ == generated_map(
                final(self).game_state.map.tiles_x as int,
                final(self).game_state.map.tiles_y as int,
                draws@,
            ),
            final(self).game_state.players == old(self).game_state.players,
            final(self).game_state.bullets == old(self).game_state.bullets,
            final(self).game_state.current_player_index == old(self).game_state.current_player_index,
            final(self).game_state.last_tick == old(self).game_state.last_tick,
            final(self).renderer.same_setup(&old(self).renderer),
            final(self).renderer.spec_fb().bytes().len() == old(self).renderer.spec_fb().bytes().len(),
            forall|i: int|
                0 <= i < final(self).renderer.spec_fb().bytes().len() ==> #[trigger] final(self).renderer.spec_fb().bytes()[i]
                    == Color::LightGray.spec_index(),
            final(self).shows_map(final(self).game_state.map),
    {
        self.game_state.map.auto_set_walls(draws);
        self.renderer.clear();
        let map = self.game_state.map.clone();
        proof {
            lemma_grid_walls_fit(map.tiles_x as int, map.tiles_y as int, map.tile_size as int, map.tiles@);
        }
        let ghost shown = map;
        self.renderer.draw_map_buffer(map);
        proof {
            let mb = self.renderer.spec_map_buffer();
            lemma_wall_pixels_same(shown, self.game_state.map, mb.spec_width(), mb.spec_height());
        }
    }

    /// Adds a player with identifier `player_id`, unless one with that
    /// identifier is already in the game. The new player stands at the
    /// centre of the tile chosen by the random numbers `r_x` and `r_y` (see
    /// `TileMap::random_pos`), alive, with full ammo and nothing else set.
    pub fn add_player(&mut self, player_id: usize, r_x: usize, r_y: usize)
        requires
            old(self).inv(),
            spawnable_map(old(self).game_state.map),
        ensures
            final(self).inv(),
            final(self).only_players_changed(old(self)),
            has_id(old(self).game_state.players@, player_id) ==> final(self).game_state.players@
                == old(self).game_state.players@,
            !has_id(old(self).game_state.players@, player_id) ==> {
                let s = final(self).game_state.players@;
                let m = old(self).game_state.map;
                &&& s.len() == old(self).game_state.players@.len() + 1
                &&& s.drop_last() == old(self).game_state.players@
                &&& s.last() == fresh_player(player_id, s.last().x, s.last().y)
                &&& f64_holds_nat(
                    s.last().x,
                    spawn_coord(r_x as int, m.tiles_x as int, m.tile_size as int) as nat,
                )
                &&& f64_holds_nat(
                    s.last().y,
                    spawn_coord(r_y as int, m.tiles_y as int, m.tile_size as int) as nat,
                )
            },
            distinct_ids(old(self).game_state.players@) ==> distinct_ids(final(self).game_state.players@),
            has_id(final(self).game_state.players@, player_id),
    {
        if let Some(i) = find_player(&self.game_state.players, player_id) {
            return;
        }
        let m = &self.game_state.map;
        proof {
            let ts = m.tile_size as int;
            assert((m.tiles_x - 1) * ts + (ts - PLAYER_SIZE) / 2 < m.tiles_x * ts) by (nonlinear_arith)
                requires
                    m.tiles_x >= 1,
                    ts >= PLAYER_SIZE,
            ;
            assert((m.tiles_y - 1) * ts + (ts - PLAYER_SIZE) / 2 < m.tiles_y * ts) by (nonlinear_arith)
                requires
                    m.tiles_y >= 1,
                    ts >= PLAYER_SIZE,
            ;
        }
        let pos = m.random_pos(r_x, r_y);
        proof {
            let ts = m.tile_size as int;
            assert((r_x % m.tiles_x) * ts <= (m.tiles_x - 1) * ts) by (nonlinear_arith)
                requires
                    r_x % m.tiles_x <= m.tiles_x - 1,
                    ts >= 0,
            ;
            assert((r_y % m.tiles_y) * ts <= (m.tiles_y - 1) * ts) by (nonlinear_arith)
                requires
                    r_y % m.tiles_y <= m.tiles_y - 1,
                    ts >= 0,
            ;
        }
        let x = f64_bits_of_usize(pos.0);
        let y = f64_bits_of_usize(pos.1);
        let new_player = Player {
            id: player_id,
            x,
            y,
            alive: true,
            time_of_death: 0,
            user_input: UserInput {
                up: false,
                right: false,
                down: false,
                left: false,
                shooting: false,
                map_mouse_x: 0,
                map_mouse_y: 0,
            },
            pointing_to: (0, 0),
            points: 0,
            ammo: MAX_AMMO,
            last_shot: 0,
            last_reload_ammo: 0,
        };
        let ghost before = self.game_state.players@;
        self.game_state.players.push(new_player);
        assert(self.game_state.players@.drop_last() =~= before);
        assert(self.game_state.players@[before.len() as int].id == player_id);
    }

    /// Removes the first player with identifier `player_id`, if any.
    pub fn remove_player(&mut self, player_id: usize)
        requires
            old(self).inv(),
        ensures
            final(self).inv(),
            final(self).only_players_changed(old(self)),
            !has_id(old(self).game_state.players@, player_id) ==> final(self).game_state.players@
                == old(self).game_state.players@,
            forall|i: int|
                is_first(old(self).game_state.players@, player_id, i) ==> final(self).game_state.players@
                    == old(self).game_state.players@.remove(i),
            distinct_ids(old(self).game_state.players@) ==> {
                &&& distinct_ids(final(self).game_state.players@)
                &&& !has_id(final(self).game_state.players@, player_id)
            },
    {
        let ghost before = self.game_state.players@;
        if let Some(i) = find_player(&self.game_state.players, player_id) {
            self.game_state.players.remove(i);
            proof {
                let after = self.game_state.players@;
                assert forall|j: int| is_first(before, player_id, j) implies after == before.remove(j) by {
                    if j < i {
                        assert(before[j].id != player_id);
                    }
                    if i < j {
                        assert(before[i as int].id == player_id);
                    }
                }
                if distinct_ids(before) {
                    assert forall|a: int, b: int| 0 <= a < b < after.len() implies #[trigger] after[a].id
                        != #[trigger] after[b].id by {
                        let oa = if a < i { a } else { a + 1 };
                        let ob = if b < i { b } else { b + 1 };
                        assert(after[a] == before[oa] && after[b] == before[ob]);
                    }
                    assert forall|k: int| 0 <= k < after.len() implies #[trigger] after[k].id != player_id by {
                        let ok = if k < i { k } else { k + 1 };
                        assert(after[k] == before[ok]);
                    }
                }
            }
        }
    }

    /// Makes the first player with identifier `player_id`, if any, the
    /// player of this machine.
    pub fn set_current_player(&mut self, player_id: usize)
        ensures
            final(self).game_state.map == old(self).game_state.map,
            final(self).game_state.players == old(self).game_state.players,
            final(self).game_state.bullets == old(self).game_state.bullets,
            final(self).game_state.last_tick == old(self).game_state.last_tick,
            final(self).renderer == old(self).renderer,
            !has_id(old(self).game_state.players@, player_id) ==> final(self).game_state.current_player_index
                == old(self).game_state.current_player_index,
            forall|i: int|
                is_first(old(self).game_state.players@, player_id, i)
                    ==> final(self).game_state.current_player_index == i,
    {
        if let Some(i) = find_player(&self.game_state.players, player_id) {
            self.game_state.current_player_index = i;
            proof {
                let s = old(self).game_state.players@;
                assert forall|j: int| is_first(s, player_id, j) implies i == j by {
                    if j < i {
                        assert(s[j].id != player_id);
                    }
                    if i < j {
                        assert(s[i as int].id == player_id);
                    }
                }
            }
        }
    }

    /// Updates the input of the first player with identifier `player_id`,
    /// if any, from the keyboard and the mouse (see
    /// `UserInput::update_from_io`).
    pub fn update_user_input(
        &mut self,
        player_id: usize,
        keys: (bool, bool, bool, bool),
        events: &[MouseEvent],
        width: usize,
        height: usize,
    )
        requires
            old(self).inv(),
            forall|i: int|
                is_first(old(self).game_state.players@, player_id, i) ==> {
                    let u = #[trigger] old(self).game_state.players@[i].user_input;
                    &&& mouse_x_fits(u.map_mouse_x as int, events@, width)
                    &&& mouse_y_fits(u.map_mouse_y as int, events@, height)
                },
        ensures
            final(self).inv(),
            final(self).only_players_changed(old(self)),
            !has_id(old(self).game_state.players@, player_id) ==> final(self).game_state.players@
                == old(self).game_state.players@,
            forall|i: int|
                is_first(old(self).game_state.players@, player_id, i) ==> final(self).game_state.players@
                    == old(self).game_state.players@.update(
                    i,
                    Player {
                        user_input: input_after(
                            old(self).game_state.players@[i].user_input,
                            keys,
                            events@,
                            width,
                            height,
                        ),
                        ..old(self).game_state.players@[i]
                    },
                ),
    {
        if let Some(i) = find_player(&self.game_state.players, player_id) {
            let ghost s = self.game_state.players@;
            let mut input = self.game_state.players[i].user_input;
            input.update_from_io(keys, events, width, height);
            let updated = with_input(&self.game_state.players[i], input);
            self.game_state.players.set(i, updated);
            proof {
                let u = s[i as int].user_input;
                assert(input == input_after(u, keys, events@, width, height));
                assert forall|j: int| is_first(s, player_id, j) implies j == i by {
                    if j < i {
                        assert(s[j].id != player_id);
                    }
                    if i < j {
                        assert(s[i as int].id == player_id);
                    }
                }
            }
        }
    }

    /// The byte form of the input of the first player with identifier
    /// `player_id` (see `UserInput::to_bytes`), or nothing if there is no
    /// such player.
    pub fn serialize_user_input(&self, player_id: usize) -> (out: Vec<u8>)
        ensures
            !has_id(self.game_state.players@, player_id) ==> out@.len() == 0,
            forall|i: int|
                is_first(self.game_state.players@, player_id, i) ==> out@
                    == self.game_state.players@[i].user_input.to_bytes(),
    {
        if let Some(i) = find_player(&self.game_state.players, player_id) {
            proof {
                let s = self.game_state.players@;
                assert forall|j: int| is_first(s, player_id, j) implies j == i by {
                    if j < i {
                        assert(s[j].id != player_id);
                    }
                    if i < j {
                        assert(s[i as int].id == player_id);
                    }
                }
            }
            return self.game_state.players[i].user_input.serialize();
        }
        Vec::new()
    }

    /// Sets the input of the first player with identifier `player_id`, if
    /// any, to the input decoded from `data` (see `UserInput::from_bytes`).
    pub fn deserialize_user_input(&mut self, player_id: usize, data: &[u8])
        requires
            old(self).inv(),
        ensures
            final(self).inv(),
            final(self).only_players_changed(old(self)),
            !has_id(old(self).game_state.players@, player_id) ==> final(self).game_state.players@
                == old(self).game_state.players@,
            forall|i: int|
                is_first(old(self).game_state.players@, player_id, i) ==> final(self).game_state.players@
                    == old(self).game_state.players@.update(
                    i,
                    Player { user_input: UserInput::from_bytes(data@), ..old(self).game_state.players@[i] },
                ),
    {
        if let Some(i) = find_player(&self.game_state.players, player_id) {
            let ghost s = self.game_state.players@;
            let input = UserInput::deserialize(data);
            let updated = with_input(&self.game_state.players[i], input);
            self.game_state.players.set(i, updated);
            proof {
                assert forall|j: int| is_first(s, player_id, j) implies j == i by {
                    if j < i {
                        assert(s[j].id != player_id);
                    }
                    if i < j {
                        assert(s[i as int].id == player_id);
                    }
                }
            }
        }
    }

    /// The byte form of the whole game state (see `state_bytes`).
    pub fn serialize_state(&self) -> (out: Vec<u8>)
        ensures
            out@ == state_bytes(self.game_state.map, self.game_state.players@, self.game_state.bullets@),
    {
        self.game_state.serialize()
    }

    /// The byte form of the map (see `map_bytes`).
    pub fn serialize_map(&self) -> (out: Vec<u8>)
        ensures
            out@ == map_bytes(self.game_state.map),
    {
        self.game_state.map.serialize()
    }

    /// Replaces the map by the map decoded from `data` (see
    /// `TileMap::deserialize`) and draws it into the renderer's map buffer.
    pub fn deserialize_map(&mut self, data: &[u8])
        requires
            old(self).inv(),
            is_map_data(data@),
            header_drawable(data@),
        ensures
            final(self).inv(),
            final(self).game_state.map.size_x == header_field(data@, 0),
            final(self).game_state.map.size_y == header_field(data@, 1),
            final(self).game_state.map.tiles_x == header_field(data@, 2),
            final(self).game_state.map.tiles_y == header_field(data@, 3),
            final(self).game_state.map.tile_size == header_field(data@, 4),
            final(self).game_state.map.tiles@ == decoded_tiles(data@),
            final(self).game_state.players == old(self).game_state.players,
            final(self).game_state.bullets == old(self).game_state.bullets,
            final(self).game_state.current_player_index == old(self).game_state.current_player_index,
            final(self).game_state.last_tick == old(self).game_state.last_tick,
            final(self).renderer.same_setup(&old(self).renderer),
            final(self).renderer.spec_fb() == old(self).renderer.spec_fb(),
            final(self).shows_map(final(self).game_state.map),
    {
        let map = TileMap::deserialize(data);
        let copy = map.clone();
        let ghost shown = copy;
        self.game_state.map = map;
        self.renderer.draw_map_buffer(copy);
        proof {
            let mb = self.renderer.spec_map_buffer();
            lemma_wall_pixels_same(shown, self.game_state.map, mb.spec_width(), mb.spec_height());
        }
    }

    /// Replaces the map by `map` and draws it into the renderer's map
    /// buffer.
    pub fn set_and_draw_map(&mut self, map: TileMap)
        requires
            old(self).inv(),
            map.well_formed(),
            drawable_map(map),
        ensures
            final(self).inv(),
            final(self).game_state.map == map,
            final(self).game_state.players == old(self).game_state.players,
            final(self).game_state.bullets == old(self).game_state.bullets,
            final(self).game_state.current_player_index == old(self).game_state.current_player_index,
            final(self).game_state.last_tick == old(self).game_state.last_tick,
            final(self).renderer.same_setup(&old(self).renderer),
            final(self).renderer.spec_fb() == old(self).renderer.spec_fb(),
            final(self).shows_map(map),
    {
        let copy = map.clone();
        let ghost shown = copy;
        self.game_state.map = map;
        self.renderer.draw_map_buffer(copy);
        proof {
            let mb = self.renderer.spec_map_buffer();
            lemma_wall_pixels_same(shown, self.game_state.map, mb.spec_width(), mb.spec_height());
        }
    }

    /// Sets the input of the first player with identifier `player_id`, if
    /// any, to `input`.
    pub fn set_user_input(&mut self, player_id: usize, input: UserInput)
        requires
            old(self).inv(),
        ensures
            final(self).inv(),
            final(self).only_players_changed(old(self)),
            !has_id(old(self).game_state.players@, player_id) ==> final(self).game_state.players@
                == old(self).game_state.players@,
            forall|i: int|
                is_first(old(self).game_state.players@, player_id, i) ==> final(self).game_state.players@
                    == old(self).game_state.players@.update(
                    i,
                    Player { user_input: input, ..old(self).game_state.players@[i] },
                ),
    {
        if let Some(i) = find_player(&self.game_state.players, player_id) {
            let ghost s = self.game_state.players@;
            let updated = with_input(&self.game_state.players[i], input);
            self.game_state.players.set(i, updated);
            proof {
                assert forall|j: int| is_first(s, player_id, j) implies j == i by {
                    if j < i {
                        assert(s[j].id != player_id);
                    }
                    if i < j {
                        assert(s[i as int].id == player_id);
                    }
                }
            }
        }
    }

    /// A spawn position on the map: the centre of the tile chosen by the
    /// random numbers `r_x` and `r_y` (see `TileMap::random_pos`).
    pub fn get_random_spawn_position(&self, r_x: usize, r_y: usize) -> (pos: (usize, usize))
        requires
            spawnable_map(self.game_state.map),
        ensures
            pos.0 == spawn_coord(r_x as int, self.game_state.map.tiles_x as int, self.game_state.map.tile_size as int),
            pos.1 == spawn_coord(r_y as int, self.game_state.map.tiles_y as int, self.game_state.map.tile_size as int),
    {
        let m = &self.game_state.map;
        proof {
            let ts = m.tile_size as int;
            assert((m.tiles_x - 1) * ts + (ts - PLAYER_SIZE) / 2 < m.tiles_x * ts) by (nonlinear_arith)
                requires
                    m.tiles_x >= 1,
                    ts >= PLAYER_SIZE,
            ;
            assert((m.tiles_y - 1) * ts + (ts - PLAYER_SIZE) / 2 < m.tiles_y * ts) by (nonlinear_arith)
                requires
                    m.tiles_y >= 1,
                    ts >= PLAYER_SIZE,
            ;
        }
        m.random_pos(r_x, r_y)
    }

    /// The number of players in the game.
    pub fn get_player_count(&self) -> (n: usize)
        ensures
            n == self.game_state.players@.len(),
    {
        self.game_state.players.len()
    }

    /// The number of bullets in flight.
    pub fn get_bullet_count(&self) -> (n: usize)
        ensures
            n == self.game_state.bullets@.len(),
    {
        self.game_state.bullets.len()
    }

    /// Replaces the map, the players and the bullets by those decoded from
    /// `data` (see `GameState::deserialize`), keeps the time of the last
    /// tick and the player of this machine, and draws the new map into the
    /// renderer's map buffer. Returns `false`, and changes nothing, when
    /// the bytes do not hold a whole game state or its map cannot be drawn.
    pub fn deserialize_state(&mut self, data: &[u8]) -> (ok: bool)
        requires
            old(self).inv(),
        ensures
            final(self).inv(),
            ok == (is_state_data(data@) && header_drawable(data@)),
            !ok ==> *final(self) == *old(self),
            ok ==> {
                &&& final(self).game_state.map.size_x == header_field(data@, 0)
                &&& final(self).game_state.map.size_y == header_field(data@, 1)
                &&& final(self).game_state.map.tiles_x == header_field(data@, 2)
                &&& final(self).game_state.map.tiles_y == header_field(data@, 3)
                &&& final(self).game_state.map.tile_size == header_field(data@, 4)
                &&& final(self).game_state.map.tiles@ == decoded_tiles(data@)
                &&& final(self).game_state.players@ == decoded_players(data@)
                &&& final(self).game_state.bullets@ == decoded_bullets(data@)
                &&& final(self).game_state.current_player_index
                    == old(self).game_state.current_player_index
                &&& final(self).game_state.last_tick == old(self).game_state.last_tick
                &&& final(self).renderer.same_setup(&old(self).renderer)
                &&& final(self).renderer.spec_fb() == old(self).renderer.spec_fb()
                &&& final(self).shows_map(final(self).game_state.map)
            },
    {
        let decoded = GameState::deserialize(data);
        match decoded {
            None => false,
            Some(mut g) => {
                if !map_is_drawable(&g.map) {
                    return false;
                }
                g.last_tick = self.game_state.last_tick;
                g.current_player_index = self.game_state.current_player_index;
                let copy = g.map.clone();
                let ghost shown = copy;
                self.game_state = g;
                self.renderer.draw_map_buffer(copy);
                proof {
                    let mb = self.renderer.spec_map_buffer();
                    lemma_wall_pixels_same(shown, self.game_state.map, mb.spec_width(), mb.spec_height());
                }
                true
            },
        }
    }

    /// Replaces the map by a new map of `TILES_X` by `TILES_Y` tiles for a
    /// `width` by `height` screen whose walls are generated from the random
    /// `draws` (exactly `generated_map`, see `TileMap::auto_set_walls`),
    /// and draws it into the renderer's map buffer.
    pub fn set_new_random_map(&mut self, width: usize, height: usize, draws: &[(bool, bool)])
        requires
            old(self).inv(),
            draws@.len() == TILES_X * TILES_Y,
        ensures
            final(self).inv(),
            final(self).game_state.map.size_x == width,
            final(self).game_state.map.size_y == height,
            final(self).game_state.map.tiles_x == TILES_X,
            final(self).game_state.map.tiles_y == TILES_Y,
            final(self).game_state.map.tile_size == TILE_SIZE,
            walls_from_draws(final(self).game_state.map, draws@),
            final(self).game_state.map.tiles@ == generated_map(
                final(self).game_state.map.tiles_x as int,
                final(self).game_state.map.tiles_y as int,
                draws@,
            ),
            final(self).game_state.players == old(self).game_state.players,
            final(self).game_state.bullets == old(self).game_state.bullets,
            final(self).game_state.current_player_index == old(self).game_state.current_player_index,
            final(self).game_state.last_tick == old(self).game_state.last_tick,
            final(self).renderer.same_setup(&old(self).renderer),
            final(self).renderer.spec_fb() == old(self).renderer.spec_fb(),
            final(self).shows_map(final(self).game_state.map),
    {
        let mut new_map = TileMap::new(width, height, TILES_X, TILES_Y, TILE_SIZE);
        new_map.auto_set_walls(draws);
        let copy = new_map.clone();
        proof {
            lemma_grid_walls_fit(copy.tiles_x as int, copy.tiles_y as int, copy.tile_size as int, copy.tiles@);
        }
        let ghost shown = copy;
        self.game_state.map = new_map;
        self.renderer.draw_map_buffer(copy);
        proof {
            let mb = self.renderer.spec_map_buffer();
            lemma_wall_pixels_same(shown, self.game_state.map, mb.spec_width(), mb.spec_height());
        }
    }

    /// The shooting step of a tick at time `now` (bit pattern): every
    /// player changes as `after_shooting` says, where `shot_ready[i]` and
    /// `reload_ready[i]` tell whether enough time has passed since player
    /// `i`'s last shot and last reload. Returns the indices of the players
    /// that fired, in order; the caller launches their bullets.
    pub fn handle_player_shooting(&mut self, shot_ready: &[bool], reload_ready: &[bool], now: u64) -> (fired: Vec<usize>)
        requires
            old(self).inv(),
            shot_ready@.len() == old(self).game_state.players@.len(),
            reload_ready@.len() == old(self).game_state.players@.len(),
        ensures
            final(self).inv(),
            final(self).only_players_changed(old(self)),
            final(self).game_state.players@.len() == old(self).game_state.players@.len(),
            forall|i: int|
                0 <= i < old(self).game_state.players@.len() ==> #[trigger] final(self).game_state.players@[i]
                    == after_shooting(old(self).game_state.players@[i], shot_ready@[i], reload_ready@[i], now),
            fired@ == firing(old(self).game_state.players@, shot_ready@, old(self).game_state.players@.len() as int),
    {
        let ghost start = self.game_state.players@;
        let mut fired: Vec<usize> = Vec::new();
        let n = self.game_state.players.len();
        let mut i: usize = 0;
        while i < n
            invariant
                0 <= i <= n,
                n == start.len(),
                shot_ready@.len() == n,
                reload_ready@.len() == n,
                self.game_state.players@.len() == n,
                self.only_players_changed(old(self)),
                old(self).inv(),
                start == old(self).game_state.players@,
                forall|k: int| 0 <= k < i ==> #[trigger] self.game_state.players@[k] == after_shooting(
                    start[k],
                    shot_ready@[k],
                    reload_ready@[k],
                    now,
                ),
                forall|k: int| i <= k < n ==> #[trigger] self.game_state.players@[k] == start[k],
                fired@ == firing(start, shot_ready@, i as int),
            decreases n - i,
        {
            let p = &self.game_state.players[i];
            let ghost old_p = start[i as int];
            if p.alive {
                if p.user_input.shooting && p.ammo > 0 {
                    if shot_ready[i] {
                        let q = Player { ammo: p.ammo - 1, last_shot: now, ..copy_player(p) };
                        self.game_state.players.set(i, q);
                        fired.push(i);
                    }
                } else if p.ammo < MAX_AMMO {
                    if reload_ready[i] {
                        let q = Player { ammo: p.ammo + 1, last_reload_ammo: now, ..copy_player(p) };
                        self.game_state.players.set(i, q);
                    }
                }
            }
            i = i + 1;
        }
        fired
    }

    /// The hit step of a tick at time `now` (bit pattern): the bullets are
    /// checked in order, `inside[b][p]` telling whether bullet `b` lies
    /// strictly inside the square of player `p`; each bullet hits the first
    /// alive player other than its shooter that holds it, that player dies
    /// (see `collide`), every shooter who hit gets `POINTS_PER_KILL` points
    /// (see `awarded`), and the bullets that hit are removed. Returns, per
    /// bullet, whether it hit.
    pub fn handle_player_bullet_collisions(&mut self, inside: &Vec<Vec<bool>>, now: u64) -> (hits: Vec<bool>)
        requires
            old(self).inv(),
            inside@.len() == old(self).game_state.bullets@.len(),
            forall|b: int|
                0 <= b < inside@.len() ==> #[trigger] inside@[b]@.len() == old(self).game_state.players@.len(),
            forall|i: int|
                0 <= i < old(self).game_state.players@.len() ==> #[trigger] old(self).game_state.players@[i].points
                    < usize::MAX,
        ensures
            final(self).inv(),
            final(self).game_state.map == old(self).game_state.map,
            final(self).game_state.current_player_index == old(self).game_state.current_player_index,
            final(self).game_state.last_tick == old(self).game_state.last_tick,
            final(self).renderer == old(self).renderer,
            ({
                let r = collide(
                    old(self).game_state.players@,
                    old(self).game_state.bullets@,
                    inside@.map_values(|row: Vec<bool>| row@),
                    now,
                    old(self).game_state.bullets@.len() as int,
                );
                &&& hits@ == r.2
                &&& final(self).game_state.players@.len() == old(self).game_state.players@.len()
                &&& forall|i: int|
                    0 <= i < old(self).game_state.players@.len() ==> #[trigger] final(self).game_state.players@[i]
                        == awarded(r.0[i], r.1)
                &&& final(self).game_state.bullets@ == unhit(
                    old(self).game_state.bullets@,
                    r.2,
                    old(self).game_state.bullets@.len() as int,
                )
            }),
    {
        let ghost start = self.game_state.players@;
        let ghost rows = inside@.map_values(|row: Vec<bool>| row@);
        let ghost bs = self.game_state.bullets@;
        let nb = self.game_state.bullets.len();
        let np = self.game_state.players.len();
        let mut awards: Vec<usize> = Vec::new();
        let mut hits: Vec<bool> = Vec::new();
        let mut b: usize = 0;
        while b < nb
            invariant
                0 <= b <= nb,
                nb == bs.len(),
                np == start.len(),
                bs == self.game_state.bullets@,
                inside@.len() == nb,
                rows == inside@.map_values(|row: Vec<bool>| row@),
                forall|k: int| 0 <= k < nb ==> #[trigger] inside@[k]@.len() == np,
                self.only_players_changed(old(self)),
                start == old(self).game_state.players@,
                old(self).inv(),
                ({
                    let r = collide(start, bs, rows, now, b as int);
                    &&& self.game_state.players@ == r.0
                    &&& awards@ == r.1
                    &&& hits@ == r.2
                }),
                forall|i: int|
                    0 <= i < np ==> {
                        &&& (#[trigger] self.game_state.players@[i]).user_input == start[i].user_input
                        &&& self.game_state.players@[i].id == start[i].id
                        &&& self.game_state.players@[i].points <= start[i].points
                    },
            decreases nb - b,
        {
            proof {
                lemma_collide_lengths(start, bs, rows, now, b as int);
            }
            let shooter = self.game_state.bullets[b].shot_by;
            let row = &inside[b];
            assert(row@ == rows[b as int]);
            let ghost ps = self.game_state.players@;
            let mut j: usize = 0;
            let mut found = false;
            while j < np && !found
                invariant
                    0 <= j <= np,
                    np == ps.len(),
                    row@.len() == np,
                    ps == self.game_state.players@,
                    found ==> j < np && ps[j as int].alive && ps[j as int].id != shooter && row@[j as int],
                    found ==> first_hit(ps, shooter, row@, 0) == j,
                    !found ==> first_hit(ps, shooter, row@, 0) == first_hit(ps, shooter, row@, j as int),
                decreases np - j + (if found { 0int } else { 1int }),
            {
                let p = &self.game_state.players[j];
                if p.alive && p.id != shooter && row[j] {
                    found = true;
                } else {
                    proof {
                        lemma_first_hit_skip(ps, shooter, row@, j as int);
                    }
                    j = j + 1;
                }
            }
            if found {
                let p = &self.game_state.players[j];
                let points = if p.points >= POINTS_PER_DEATH_MINUS {
                    p.points - POINTS_PER_DEATH_MINUS
                } else {
                    0
                };
                let q = Player { alive: false, time_of_death: now, points, ..copy_player(p) };
                self.game_state.players.set(j, q);
                proof {
                    assert forall|i: int| 0 <= i < np implies {
                        &&& (#[trigger] self.game_state.players@[i]).user_input == start[i].user_input
                        &&& self.game_state.players@[i].id == start[i].id
                        &&& self.game_state.players@[i].points <= start[i].points
                    } by {
                        assert(ps[i] == ps[i]);
                    }
                }
                awards.push(shooter);
            } else {
                assert(first_hit(ps, shooter, row@, j as int) == -1);
            }
            hits.push(found);
            b = b + 1;
        }
        let ghost r = collide(start, bs, rows, now, nb as int);
        proof {
            lemma_collide_lengths(start, bs, rows, now, nb as int);
        }
        let ghost mid = self.game_state.players@;
        let mut i: usize = 0;
        while i < np
            invariant
                0 <= i <= np,
                np == mid.len(),
                mid == r.0,
                awards@ == r.1,
                self.game_state.players@.len() == np,
                forall|k: int| 0 <= k < i ==> #[trigger] self.game_state.players@[k] == awarded(mid[k], awards@),
                forall|k: int| i <= k < np ==> #[trigger] self.game_state.players@[k] == mid[k],
                forall|k: int|
                    0 <= k < np ==> {
                        &&& (#[trigger] mid[k]).user_input == start[k].user_input
                        &&& mid[k].points <= start[k].points
                    },
                forall|k: int| 0 <= k < np ==> #[trigger] start[k].points < usize::MAX,
                np == start.len(),
                self.game_state.map == old(self).game_state.map,
                self.game_state.current_player_index == old(self).game_state.current_player_index,
                self.game_state.last_tick == old(self).game_state.last_tick,
                self.renderer == old(self).renderer,
                bs == self.game_state.bullets@,
            decreases np - i,
        {
            let id = self.game_state.players[i].id;
            if contains_id(&awards, id) {
                let p = &self.game_state.players[i];
                assert(mid[i as int].points <= start[i as int].points);
                let q = Player { points: p.points + POINTS_PER_KILL, ..copy_player(p) };
                self.game_state.players.set(i, q);
            }
            i = i + 1;
        }
        let mut kept: Vec<Bullet> = Vec::new();
        let mut k: usize = 0;
        while k < nb
            invariant
                0 <= k <= nb,
                nb == bs.len(),
                hits@ == r.2,
                r.2.len() == nb,
                bs == self.game_state.bullets@,
                kept@ == unhit(bs, r.2, k as int),
            decreases nb - k,
        {
            if !hits[k] {
                kept.push(self.game_state.bullets[k]);
            }
            k = k + 1;
        }
        self.game_state.bullets = kept;
        hits
    }

    /// The respawn step of a tick: every dead player whose respawn time has
    /// come (`due[i]`) is placed at the centre of the tile chosen by the
    /// random numbers `draws[i]` (see `TileMap::random_pos`) and comes back
    /// to life (see `respawned`); the other players stay as they are.
    pub fn handle_player_respawning(&mut self, due: &[bool], draws: &[(usize, usize)])
        requires
            old(self).inv(),
            spawnable_map(old(self).game_state.map),
            due@.len() == old(self).game_state.players@.len(),
            draws@.len() == old(self).game_state.players@.len(),
        ensures
            final(self).inv(),
            final(self).only_players_changed(old(self)),
            final(self).game_state.players@.len() == old(self).game_state.players@.len(),
            forall|i: int|
                0 <= i < old(self).game_state.players@.len() ==> {
                    let p = old(self).game_state.players@[i];
                    let q = #[trigger] final(self).game_state.players@[i];
                    let m = old(self).game_state.map;
                    if !p.alive && due@[i] {
                        &&& q == respawned(p, q.x, q.y)
                        &&& f64_holds_nat(
                            q.x,
                            spawn_coord(draws@[i].0 as int, m.tiles_x as int, m.tile_size as int) as nat,
                        )
                        &&& f64_holds_nat(
                            q.y,
                            spawn_coord(draws@[i].1 as int, m.tiles_y as int, m.tile_size as int) as nat,
                        )
                    } else {
                        q == p
                    }
                },
    {
        let ghost start = self.game_state.players@;
        let n = self.game_state.players.len();
        let mut i: usize = 0;
        while i < n
            invariant
                0 <= i <= n,
                n == start.len(),
                due@.len() == n,
                draws@.len() == n,
                self.game_state.players@.len() == n,
                self.only_players_changed(old(self)),
                start == old(self).game_state.players@,
                old(self).inv(),
                spawnable_map(self.game_state.map),
                forall|k: int|
                    0 <= k < i ==> {
                        let p = start[k];
                        let q = #[trigger] self.game_state.players@[k];
                        let m = self.game_state.map;
                        if !p.alive && due@[k] {
                            &&& q == respawned(p, q.x, q.y)
                            &&& f64_holds_nat(
                                q.x,
                                spawn_coord(draws@[k].0 as int, m.tiles_x as int, m.tile_size as int) as nat,
                            )
                            &&& f64_holds_nat(
                                q.y,
                                spawn_coord(draws@[k].1 as int, m.tiles_y as int, m.tile_size as int) as nat,
                            )
                        } else {
                            q == p
                        }
                    },
                forall|k: int| i <= k < n ==> #[trigger] self.game_state.players@[k] == start[k],
            decreases n - i,
        {
            if !self.game_state.players[i].alive && due[i] {
                let m = &self.game_state.map;
                proof {
                    let ts = m.tile_size as int;
                    assert((m.tiles_x - 1) * ts + (ts - PLAYER_SIZE) / 2 < m.tiles_x * ts) by (nonlinear_arith)
                        requires
                            m.tiles_x >= 1,
                            ts >= PLAYER_SIZE,
                    ;
                    assert((m.tiles_y - 1) * ts + (ts - PLAYER_SIZE) / 2 < m.tiles_y * ts) by (nonlinear_arith)
                        requires
                            m.tiles_y >= 1,
                            ts >= PLAYER_SIZE,
                    ;
                }
                let d = draws[i];
                let pos = m.random_pos(d.0, d.1);
                proof {
                    let ts = m.tile_size as int;
                    assert((d.0 % m.tiles_x) * ts <= (m.tiles_x - 1) * ts) by (nonlinear_arith)
                        requires
                            d.0 % m.tiles_x <= m.tiles_x - 1,
                            ts >= 0,
                    ;
                    assert((d.1 % m.tiles_y) * ts <= (m.tiles_y - 1) * ts) by (nonlinear_arith)
                        requires
                            d.1 % m.tiles_y <= m.tiles_y - 1,
                            ts >= 0,
                    ;
                }
                let x = f64_bits_of_usize(pos.0);
                let y = f64_bits_of_usize(pos.1);
                let q = Player {
                    x,
                    y,
                    alive: true,
                    ammo: 5,
                    time_of_death: 0,
                    ..copy_player(&self.game_state.players[i])
                };
                self.game_state.players.set(i, q);
            }
            i = i + 1;
        }
    }

    /// The cursor of the player of this machine is drawn: that player
    /// exists and the arms of its cursor, 4 pixels each way from the mouse
    /// position, have coordinates within the range of `isize`.
    pub open spec fn cursor_shown(&self) -> bool {
        let i = self.game_state.current_player_index as int;
        let s = self.game_state.players@;
        &&& i < s.len()
        &&& isize::MIN + 4 <= s[i].user_input.map_mouse_x <= isize::MAX - 4
        &&& isize::MIN + 4 <= s[i].user_input.map_mouse_y <= isize::MAX - 4
    }

    /// The picture `draw` paints over a light gray screen, given the
    /// players' and bullets' pixel positions.
    pub open spec fn frame_paint(&self, px: Seq<(isize, isize)>, bpx: Seq<(isize, isize)>, font: Font) -> spec_fn(
        int,
        int,
    ) -> Option<u8> {
        let s = self.game_state.players@;
        let scene = paint_over(
            stats_paint(s, font, s.len() as int),
            paint_over(
                bullets_paint(self.game_state.bullets@, bpx, bpx.len() as int),
                paint_over(
                    players_paint(s, px, s.len() as int),
                    copy_paint(GUI_WIDTH as int, 0, self.renderer.spec_map_buffer()),
                ),
            ),
        );
        if self.cursor_shown() {
            let p = s[self.game_state.current_player_index as int];
            paint_over(
                cursor_paint(
                    self.renderer.spec_screen().0,
                    self.renderer.spec_screen().1,
                    p.user_input.map_mouse_x as int,
                    p.user_input.map_mouse_y as int,
                    p.id as u8,
                ),
                scene,
            )
        } else {
            scene
        }
    }

    /// Draws a frame into the screen buffer: clears it to light gray, copies
    /// the map right of the statistics panel, draws the alive players at
    /// the pixel positions `player_px` and the bullets at `bullet_px` (the
    /// truncated positions, one per player and per bullet), the statistics
    /// box of every player, and the mouse cursor of the player of this
    /// machine (see `frame_paint`; a cursor whose arms would reach beyond
    /// the range of `isize` is not drawn). Sending the buffer to the screen
    /// is left to the caller.
    pub fn draw(&mut self, player_px: &[(isize, isize)], bullet_px: &[(isize, isize)], font: &Font)
        requires
            old(self).inv(),
            font.well_formed(),
            player_px@.len() == old(self).game_state.players@.len(),
            bullet_px@.len() == old(self).game_state.bullets@.len(),
            old(self).game_state.players@.len() * GUI_HEIGHT_PER_PLAYER <= 0x100_0000 - 0x200,
            forall|i: int| 0 <= i < player_px@.len() ==> near(#[trigger] player_px@[i]),
            forall|i: int| 0 <= i < bullet_px@.len() ==> near_bullet(#[trigger] bullet_px@[i]),
            GUI_WIDTH + old(self).renderer.spec_map_buffer().spec_width() <= old(self).renderer.spec_fb().spec_width(),
            old(self).renderer.spec_map_buffer().spec_height() <= old(self).renderer.spec_fb().spec_height(),
        ensures
            final(self).inv(),
            final(self).game_state == old(self).game_state,
            final(self).renderer.same_setup(&old(self).renderer),
            final(self).renderer.spec_map_buffer() == old(self).renderer.spec_map_buffer(),
            forall|x: int, y: int|
                final(self).renderer.spec_fb().in_bounds(x, y) ==> #[trigger] final(self).renderer.spec_fb().pixel(x, y)
                    == overlay(
                    old(self).frame_paint(player_px@, bullet_px@, *font),
                    x,
                    y,
                    Color::LightGray.spec_index(),
                ),
    {
        self.renderer.clear();
        let ghost c = self.renderer.spec_fb();
        let ghost mb = self.renderer.spec_map_buffer();
        self.renderer.draw_map();
        let ghost base = copy_paint(GUI_WIDTH as int, 0, mb);
        let ghost s = self.game_state.players@;
        let ghost bs = self.game_state.bullets@;
        let np = self.game_state.players.len();
        let nb = self.game_state.bullets.len();
        proof {
            c.lemma_repaint_same(self.renderer.spec_fb().bytes(), base, paint_over(players_paint(s, player_px@, 0), base));
        }
        let mut i: usize = 0;
        while i < np
            invariant
                0 <= i <= np,
                np == s.len(),
                s == self.game_state.players@,
                self.game_state == old(self).game_state,
                player_px@.len() == np,
                forall|k: int| 0 <= k < player_px@.len() ==> near(#[trigger] player_px@[k]),
                self.renderer.inv(),
                self.renderer.same_setup(&old(self).renderer),
                self.renderer.spec_map_buffer() == mb,
                c.same_geometry(&self.renderer.spec_fb()),
                c.repainted(self.renderer.spec_fb().bytes(), paint_over(players_paint(s, player_px@, i as int), base)),
            decreases np - i,
        {
            let ghost before = self.renderer.spec_fb();
            let ghost prev = paint_over(players_paint(s, player_px@, i as int), base);
            let p = &self.game_state.players[i];
            let pos = player_px[i];
            assert(near(player_px@[i as int]));
            if p.alive {
                self.renderer.draw_player(pos.0 + GUI_WIDTH as isize, pos.1, p.id as u8);
                proof {
                    let r = rect_paint(pos.0 + GUI_WIDTH, pos.1 as int, PLAYER_SIZE as int, PLAYER_SIZE as int, p.id as u8);
                    c.lemma_repaint_compose(&before, self.renderer.spec_fb().bytes(), prev, r);
                    let next = paint_over(players_paint(s, player_px@, i + 1), base);
                    assert forall|qx: int, qy: int| c.in_bounds(qx, qy) implies #[trigger] paint_over(r, prev)(qx, qy)
                        == next(qx, qy) by {}
                    c.lemma_repaint_same(self.renderer.spec_fb().bytes(), paint_over(r, prev), next);
                }
            } else {
                proof {
                    let next = paint_over(players_paint(s, player_px@, i + 1), base);
                    assert forall|qx: int, qy: int| c.in_bounds(qx, qy) implies #[trigger] prev(qx, qy) == next(qx, qy) by {}
                    c.lemma_repaint_same(self.renderer.spec_fb().bytes(), prev, next);
                }
            }
            i = i + 1;
        }
        let ghost base2 = paint_over(players_paint(s, player_px@, np as int), base);
        proof {
            c.lemma_repaint_same(
                self.renderer.spec_fb().bytes(),
                base2,
                paint_over(bullets_paint(bs, bullet_px@, 0), base2),
            );
        }
        let mut b: usize = 0;
        while b < nb
            invariant
                0 <= b <= nb,
                nb == bs.len(),
                bs == self.game_state.bullets@,
                self.game_state == old(self).game_state,
                bullet_px@.len() == nb,
                forall|k: int| 0 <= k < bullet_px@.len() ==> near_bullet(#[trigger] bullet_px@[k]),
                self.renderer.inv(),
                self.renderer.same_setup(&old(self).renderer),
                self.renderer.spec_map_buffer() == mb,
                c.same_geometry(&self.renderer.spec_fb()),
                c.repainted(self.renderer.spec_fb().bytes(), paint_over(bullets_paint(bs, bullet_px@, b as int), base2)),
            decreases nb - b,
        {
            let ghost before = self.renderer.spec_fb();
            let ghost prev = paint_over(bullets_paint(bs, bullet_px@, b as int), base2);
            let pos = bullet_px[b];
            assert(near_bullet(bullet_px@[b as int]));
            let shooter = self.game_state.bullets[b].shot_by;
            self.renderer.draw_bullet(pos.0 + GUI_WIDTH as isize, pos.1, shooter as u8);
            proof {
                let r = rect_paint(pos.0 + GUI_WIDTH, pos.1 as int, 2, 2, shooter as u8);
                c.lemma_repaint_compose(&before, self.renderer.spec_fb().bytes(), prev, r);
                let next = paint_over(bullets_paint(bs, bullet_px@, b + 1), base2);
                assert forall|qx: int, qy: int| c.in_bounds(qx, qy) implies #[trigger] paint_over(r, prev)(qx, qy)
                    == next(qx, qy) by {}
                c.lemma_repaint_same(self.renderer.spec_fb().bytes(), paint_over(r, prev), next);
            }
            b = b + 1;
        }
        let ghost base3 = paint_over(bullets_paint(bs, bullet_px@, nb as int), base2);
        proof {
            c.lemma_repaint_same(
                self.renderer.spec_fb().bytes(),
                base3,
                paint_over(stats_paint(s, *font, 0), base3),
            );
        }
        let mut k: usize = 0;
        while k < np
            invariant
                0 <= k <= np,
                np == s.len(),
                np * GUI_HEIGHT_PER_PLAYER <= 0x100_0000 - 0x200,
                s == self.game_state.players@,
                self.game_state == old(self).game_state,
                font.well_formed(),
                self.renderer.inv(),
                self.renderer.same_setup(&old(self).renderer),
                self.renderer.spec_map_buffer() == mb,
                c.same_geometry(&self.renderer.spec_fb()),
                c.repainted(self.renderer.spec_fb().bytes(), paint_over(stats_paint(s, *font, k as int), base3)),
            decreases np - k,
        {
            let ghost before = self.renderer.spec_fb();
            let ghost prev = paint_over(stats_paint(s, *font, k as int), base3);
            let p = &self.game_state.players[k];
            self.renderer.draw_stat(k, p.id, p.points, p.ammo, font);
            proof {
                let r = stat_paint(k as int, p.id, p.points as nat, p.ammo as int, *font);
                c.lemma_repaint_compose(&before, self.renderer.spec_fb().bytes(), prev, r);
                let next = paint_over(stats_paint(s, *font, k + 1), base3);
                assert forall|qx: int, qy: int| c.in_bounds(qx, qy) implies #[trigger] paint_over(r, prev)(qx, qy)
                    == next(qx, qy) by {}
                c.lemma_repaint_same(self.renderer.spec_fb().bytes(), paint_over(r, prev), next);
            }
            k = k + 1;
        }
        let ghost scene = paint_over(stats_paint(s, *font, np as int), base3);
        proof {
            assert forall|qx: int, qy: int| c.in_bounds(qx, qy) implies #[trigger] scene(qx, qy) == paint_over(
                stats_paint(s, *font, s.len() as int),
                paint_over(
                    bullets_paint(bs, bullet_px@, bullet_px@.len() as int),
                    paint_over(players_paint(s, player_px@, s.len() as int), copy_paint(GUI_WIDTH as int, 0, mb)),
                ),
            )(qx, qy) by {}
        }
        let ci = self.game_state.current_player_index;
        let mut shown = false;
        if ci < np {
            let p = &self.game_state.players[ci];
            let mx = p.user_input.map_mouse_x;
            let my = p.user_input.map_mouse_y;
            if isize::MIN + 4 <= mx && mx <= isize::MAX - 4 && isize::MIN + 4 <= my && my <= isize::MAX - 4 {
                let ghost before = self.renderer.spec_fb();
                self.renderer.draw_mouse_cursor(mx, my, p.id as u8);
                shown = true;
                proof {
                    let (w, h) = self.renderer.spec_screen();
                    let cur = cursor_paint(w, h, mx as int, my as int, p.id as u8);
                    let drawn = paint_set(
                        union_set(
                            |px: int, py: int| drawn_line(w, h, mx - 4, my as int, mx + 4, my as int, px, py),
                            |px: int, py: int| drawn_line(w, h, mx as int, my - 4, mx as int, my + 4, px, py),
                        ),
                        p.id as u8,
                    );
                    before.lemma_repaint_same(self.renderer.spec_fb().bytes(), drawn, cur);
                    c.lemma_repaint_compose(&before, self.renderer.spec_fb().bytes(), scene, cur);
                }
            }
        }
        proof {
            let fin = self.renderer.spec_fb();
            let fp = old(self).frame_paint(player_px@, bullet_px@, *font);
            if shown {
                let p = s[ci as int];
                let (w, h) = self.renderer.spec_screen();
                let cur = cursor_paint(w, h, p.user_input.map_mouse_x as int, p.user_input.map_mouse_y as int, p.id as u8);
                assert forall|qx: int, qy: int| c.in_bounds(qx, qy) implies #[trigger] paint_over(cur, scene)(qx, qy)
                    == fp(qx, qy) by {}
                c.lemma_repaint_same(fin.bytes(), paint_over(cur, scene), fp);
            } else {
                assert forall|qx: int, qy: int| c.in_bounds(qx, qy) implies #[trigger] scene(qx, qy) == fp(qx, qy) by {}
                c.lemma_repaint_same(fin.bytes(), scene, fp);
            }
            assert forall|x: int, y: int| fin.in_bounds(x, y) implies #[trigger] fin.pixel(x, y) == overlay(
                fp,
                x,
                y,
                Color::LightGray.spec_index(),
            ) by {
                assert(c.in_bounds(x, y));
                c.lemma_index(x, y, x, y);
                assert(c.pixel(x, y) == Color::LightGray.spec_index());
            }
        }
    }
}

/// `p` with its input replaced by `u`.
fn with_input(p: &Player, u: UserInput) -> (q: Player)
    ensures
        q == (Player { user_input: u, ..*p }),
{
    Player {
        id: p.id,
        x: p.x,
        y: p.y,
        alive: p.alive,
        time_of_death: p.time_of_death,
        user_input: u,
        pointing_to: p.pointing_to,
        points: p.points,
        ammo: p.ammo,
        last_shot: p.last_shot,
        last_reload_ammo: p.last_reload_ammo,
    }
}

/// A field-by-field copy of `p` (unlike `clone`, which starts a fresh
/// reload time stamp).
fn copy_player(p: &Player) -> (q: Player)
    ensures
        q == *p,
{
    Player {
        id: p.id,
        x: p.x,
        y: p.y,
        alive: p.alive,
        time_of_death: p.time_of_death,
        user_input: p.user_input,
        pointing_to: p.pointing_to,
        points: p.points,
        ammo: p.ammo,
        last_shot: p.last_shot,
        last_reload_ammo: p.last_reload_ammo,
    }
}

/// Whether `id` is among `ids`.
fn contains_id(ids: &Vec<usize>, id: usize) -> (b: bool)
    ensures
        b == ids@.contains(id),
{
    let mut i: usize = 0;
    while i < ids.len()
        invariant
            0 <= i <= ids@.len(),
            forall|k: int| 0 <= k < i ==> #[trigger] ids@[k] != id,
        decreases ids@.len() - i,
    {
        if ids[i] == id {
            assert(ids@[i as int] == id);
            return true;
        }
        i = i + 1;
    }
    false
}

/// The red line that the map demo draws on the screen for a removed wall
/// `r` = (column, row, side) of map `m`: the wall's segment moved right of
/// the statistics panel, and one pixel further right for a right wall and
/// one pixel lower for a bottom wall.
pub open spec fn demo_segment(m: TileMap, r: (usize, usize, usize)) -> (int, int, int, int) {
    let s = wall_segment(r.0 as int, r.1 as int, m.tile_size as int, r.2 as int);
    let g = GUI_WIDTH as int;
    if r.2 == 1 {
        (s.0 + g + 1, s.1, s.2 + g + 1, s.3)
    } else if r.2 == 2 {
        (s.0 + g, s.1 + 1, s.2 + g, s.3 + 1)
    } else {
        (s.0 + g, s.1, s.2 + g, s.3)
    }
}

/// The pixels of the demo lines of the first `n` removed walls on a `w` by
/// `h` screen.
pub open spec fn demo_lines(w: int, h: int, m: TileMap, removed: Seq<(usize, usize, usize)>, n: int) -> spec_fn(
    int,
    int,
) -> bool {
    |px: int, py: int|
        exists|k: int|
            0 <= k < n && #[trigger] drawn_line(
                w,
                h,
                demo_segment(m, removed[k]).0,
                demo_segment(m, removed[k]).1,
                demo_segment(m, removed[k]).2,
                demo_segment(m, removed[k]).3,
                px,
                py,
            )
}

/// One step of the map demo: removes one wall per area, exactly the walls
/// of `join_from` (see `TileMap::connect_areas_step`; with two or more
/// areas of the map at least one wall goes) and marks every removed wall with a red line on
/// the screen (see `demo_segment`). Returns the removed walls.
pub fn map_demo_round(map: &mut TileMap, renderer: &mut Renderer, areas: &Vec<Vec<(usize, usize)>>) -> (removed: Vec<
    (usize, usize, usize),
>)
    requires
        old(map).well_formed(),
        old(renderer).inv(),
        forall|a: int, k: int|
            #[trigger] holds(areas@, a, k) ==> old(map).in_grid(areas@[a]@[k].0 as int, areas@[a]@[k].1 as int),
        old(map).tiles_x <= isize::MAX - 0x100,
        old(map).tiles_y <= isize::MAX - 0x100,
        (old(map).tiles_x + 1) * old(map).tile_size <= isize::MAX - 0x100,
        (old(map).tiles_y + 1) * old(map).tile_size <= isize::MAX - 0x100,
    ensures
        final(map).same_shape(old(map)),
        final(map).well_formed(),
        removed_inner_walls(*old(map), final(map).tiles@),
        (final(map).tiles@, removed@) == join_from(
            old(map).tiles_x as int,
            old(map).tiles_y as int,
            old(map).tiles@,
            views(areas@),
            0,
            areas@.len() as int,
            Seq::empty(),
        ),
        removed@.len() <= areas@.len(),
        wall_count(final(map).tiles@) + removed@.len() <= wall_count(old(map).tiles@),
        removed@.len() == 0 ==> final(map).tiles@ == old(map).tiles@,
        areas_valid(*old(map), areas@) && areas@.len() >= 2 ==> removed@.len() >= 1,
        forall|k: int|
            0 <= k < removed@.len() ==> {
                let r = #[trigger] removed@[k];
                &&& final(map).in_grid(r.0 as int, r.1 as int)
                &&& r.2 < 4
                &&& !has_wall(final(map).tile(r.0 as int, r.1 as int), r.2 as int)
            },
        final(renderer).inv(),
        final(renderer).same_setup(old(renderer)),
        final(renderer).spec_map_buffer() == old(renderer).spec_map_buffer(),
        old(renderer).spec_fb().repainted(
            final(renderer).spec_fb().bytes(),
            paint_set(
                demo_lines(
                    old(renderer).spec_screen().0,
                    old(renderer).spec_screen().1,
                    *old(map),
                    removed@,
                    removed@.len() as int,
                ),
                Color::Red.spec_index(),
            ),
        ),
{
    let ghost m0 = *map;
    let removed = map.connect_areas_step(areas);
    let ghost c = renderer.spec_fb();
    let ghost (w, h) = renderer.spec_screen();
    let red = Color::Red.index();
    proof {
        c.lemma_repaint_none();
        c.lemma_repaint_same(c.bytes(), no_paint(), paint_set(demo_lines(w, h, m0, removed@, 0), red));
    }
    let ts = map.tile_size;
    let mut k: usize = 0;
    while k < removed.len()
        invariant
            0 <= k <= removed@.len(),
            map.same_shape(&m0),
            map.well_formed(),
            ts == m0.tile_size,
            red == Color::Red.spec_index(),
            (m0.tiles_x + 1) * m0.tile_size <= isize::MAX - 0x100,
            (m0.tiles_y + 1) * m0.tile_size <= isize::MAX - 0x100,
            m0.tiles_x <= isize::MAX - 0x100,
            m0.tiles_y <= isize::MAX - 0x100,
            forall|j: int|
                0 <= j < removed@.len() ==> {
                    let r = #[trigger] removed@[j];
                    &&& map.in_grid(r.0 as int, r.1 as int)
                    &&& r.2 < 4
                },
            renderer.inv(),
            renderer.same_setup(old(renderer)),
            renderer.spec_map_buffer() == old(renderer).spec_map_buffer(),
            c == old(renderer).spec_fb(),
            (w, h) == old(renderer).spec_screen(),
            c.same_geometry(&renderer.spec_fb()),
            c.repainted(renderer.spec_fb().bytes(), paint_set(demo_lines(w, h, m0, removed@, k as int), red)),
        decreases removed@.len() - k,
    {
        let r = removed[k];
        let ghost rr = removed@[k as int];
        assert(map.in_grid(r.0 as int, r.1 as int) && r.2 < 4);
        proof {
            let t = ts as int;
            assert((r.0 + 1) * t <= (m0.tiles_x + 1) * t && (r.1 + 1) * t <= (m0.tiles_y + 1) * t)
                by (nonlinear_arith)
                requires
                    r.0 < m0.tiles_x,
                    r.1 < m0.tiles_y,
                    t >= 0,
            ;
            assert(r.0 * t <= (r.0 + 1) * t && r.1 * t <= (r.1 + 1) * t && 0 <= r.0 * t && 0 <= r.1 * t
                && (r.0 + 1) * t == r.0 * t + t && (r.1 + 1) * t == r.1 * t + t)
                by (nonlinear_arith)
                requires
                    t >= 0,
            ;
            assert(t <= isize::MAX - 0x100) by (nonlinear_arith)
                requires
                    (m0.tiles_x + 1) * t <= isize::MAX - 0x100,
                    t >= 0,
            ;
            assert(side_fits(
                map.tiles_x as int,
                map.tiles_y as int,
                map.tile_size as int,
                r.0 as int,
                r.1 as int,
                r.2 as int,
            ));
        }
        let line = map.wall_coords(r.0 as isize, r.1 as isize, r.2 as isize);
        let g = GUI_WIDTH as isize;
        let seg = if r.2 == 1 {
            (line.0 + g + 1, line.1, line.2 + g + 1, line.3)
        } else if r.2 == 2 {
            (line.0 + g, line.1 + 1, line.2 + g, line.3 + 1)
        } else {
            (line.0 + g, line.1, line.2 + g, line.3)
        };
        assert((seg.0 as int, seg.1 as int, seg.2 as int, seg.3 as int) == demo_segment(m0, rr));
        let ghost before = renderer.spec_fb();
        renderer.draw_line(seg.0, seg.1, seg.2, seg.3, red);
        proof {
            let fb = renderer.spec_fb();
            let pts = line_points(
                clamp_below(seg.0 as int, w),
                clamp_below(seg.1 as int, h),
                clamp_below(seg.2 as int, w),
                clamp_below(seg.3 as int, h),
            );
            let one = |px: int, py: int|
                drawn_line(w, h, seg.0 as int, seg.1 as int, seg.2 as int, seg.3 as int, px, py);
            before.lemma_repaint_same(fb.bytes(), points_paint(pts, red), paint_set(one, red));
            c.lemma_repaint_union(&before, fb.bytes(), demo_lines(w, h, m0, removed@, k as int), one, red);
            let next = demo_lines(w, h, m0, removed@, k + 1);
            assert forall|px: int, py: int| c.in_bounds(px, py) implies #[trigger] paint_set(
                union_set(demo_lines(w, h, m0, removed@, k as int), one),
                red,
            )(px, py) == paint_set(next, red)(px, py) by {
                if one(px, py) {
                    assert(drawn_line(
                        w,
                        h,
                        demo_segment(m0, removed@[k as int]).0,
                        demo_segment(m0, removed@[k as int]).1,
                        demo_segment(m0, removed@[k as int]).2,
                        demo_segment(m0, removed@[k as int]).3,
                        px,
                        py,
                    ));
                }
                if next(px, py) {
                    let j = choose|j: int|
                        0 <= j < k + 1 && #[trigger] drawn_line(
                            w,
                            h,
                            demo_segment(m0, removed@[j]).0,
                            demo_segment(m0, removed@[j]).1,
                            demo_segment(m0, removed@[j]).2,
                            demo_segment(m0, removed@[j]).3,
                            px,
                            py,
                        );
                    if j < k {
                        assert(demo_lines(w, h, m0, removed@, k as int)(px, py));
                    }
                }
            }
            c.lemma_repaint_same(
                fb.bytes(),
                paint_set(union_set(demo_lines(w, h, m0, removed@, k as int), one), red),
                paint_set(next, red),
            );
        }
        k = k + 1;
    }
    removed
}

} // verus!
