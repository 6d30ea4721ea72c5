//! The tile map: walls per tile, map generation and the partition of the
//! map into areas that a player can reach from one another.
use vstd::prelude::*;
use crate::usr::game::tanks::renderer::has_wall;
use crate::usr::game::tanks::state::{PLAYER_SIZE, le_u32, from_le_u32, lemma_le_u32_round_trip, push_le_u32, read_le_u32};

verus! {

/// The walls of one tile.
#[derive(Clone, Copy, PartialEq, Eq, Structural, Debug)]
pub struct Direction {
    pub up: bool,
    pub right: bool,
    pub down: bool,
    pub left: bool,
}

impl Direction {
    /// A tile without walls.
    pub open spec fn open_tile() -> Direction {
        Direction { up: false, right: false, down: false, left: false }
    }

    /// The byte that encodes the walls: bit 0 up, bit 1 right, bit 2 down,
    /// bit 3 left.
    pub open spec fn to_byte(self) -> u8 {
        (((0u8 | (if self.up { 1u8 } else { 0u8 })) | (if self.right { 2u8 } else { 0u8 })) | (
        if self.down { 4u8 } else { 0u8 })) | (if self.left { 8u8 } else { 0u8 })
    }

    /// The walls encoded by a byte (bits 4 to 7 are ignored).
    pub open spec fn from_byte(b: u8) -> Direction {
        Direction { up: b & 1u8 != 0, right: b & 2u8 != 0, down: b & 4u8 != 0, left: b & 8u8 != 0 }
    }

    /// The walls decoded from a (possibly empty) byte string: no walls when
    /// it is empty, else those of its first byte.
    pub open spec fn from_bytes(data: Seq<u8>) -> Direction {
        if data.len() == 0 {
            Direction::open_tile()
        } else {
            Direction::from_byte(data[0])
        }
    }

    /// Encodes the walls as one byte (see `to_byte`).
    pub fn serialize(&self) -> (out: Vec<u8>)
        ensures
            out@ == seq![self.to_byte()],
    {
        let mut result = 0u8;
        result = result | (if self.up { 1u8 } else { 0u8 });
        result = result | (if self.right { 2u8 } else { 0u8 });
        result = result | (if self.down { 4u8 } else { 0u8 });
        result = result | (if self.left { 8u8 } else { 0u8 });
        let mut out = Vec::new();
        out.push(result);
        assert(out@ =~= seq![self.to_byte()]);
        out
    }

    /// Decodes walls from bytes (see `from_bytes`).
    pub fn deserialize(data: &[u8]) -> (d: Direction)
        ensures
            d == Direction::from_bytes(data@),
    {
        if data.len() == 0 {
            return Direction { up: false, right: false, down: false, left: false };
        }
        let byte = data[0];
        Direction {
            up: (byte & 0b0001) != 0,
            right: (byte & 0b0010) != 0,
            down: (byte & 0b0100) != 0,
            left: (byte & 0b1000) != 0,
        }
    }
}

/// Decoding the byte of some walls gives the walls back.
pub proof fn lemma_direction_round_trip(d: Direction)
    ensures
        Direction::from_byte(d.to_byte()) == d,
        Direction::from_bytes(seq![d.to_byte()]) == d,
{
    let u: u8 = if d.up { 1u8 } else { 0u8 };
    let r: u8 = if d.right { 2u8 } else { 0u8 };
    let w: u8 = if d.down { 4u8 } else { 0u8 };
    let l: u8 = if d.left { 8u8 } else { 0u8 };
    assert(((((0u8 | u) | r) | w) | l) & 1u8 != 0 <==> u != 0) by (bit_vector)
        requires
            u == 0 || u == 1,
            r == 0 || r == 2,
            w == 0 || w == 4,
            l == 0 || l == 8,
    ;
    assert(((((0u8 | u) | r) | w) | l) & 2u8 != 0 <==> r != 0) by (bit_vector)
        requires
            u == 0 || u == 1,
            r == 0 || r == 2,
            w == 0 || w == 4,
            l == 0 || l == 8,
    ;
    assert(((((0u8 | u) | r) | w) | l) & 4u8 != 0 <==> w != 0) by (bit_vector)
        requires
            u == 0 || u == 1,
            r == 0 || r == 2,
            w == 0 || w == 4,
            l == 0 || l == 8,
    ;
    assert(((((0u8 | u) | r) | w) | l) & 8u8 != 0 <==> l != 0) by (bit_vector)
        requires
            u == 0 || u == 1,
            r == 0 || r == 2,
            w == 0 || w == 4,
            l == 0 || l == 8,
    ;
}

/// `y * w + x` lies in `0 .. w * h` for every cell of a `w` by `h` grid.
pub proof fn lemma_grid_index(x: int, y: int, w: int, h: int)
    requires
        0 <= x < w,
        0 <= y < h,
    ensures
        0 <= y * w <= y * w + x < w * h,
        y * w + x == x + w * y,
        w * h == h * w,
{
    assert(w * h == h * w) by (nonlinear_arith);
    assert(0 <= y * w) by (nonlinear_arith)
        requires
            0 <= x < w,
            0 <= y,
    ;
    assert(0 <= y * w + x < w * h) by (nonlinear_arith)
        requires
            0 <= x < w,
            0 <= y < h,
    ;
    assert(y * w == w * y) by (nonlinear_arith);
}

/// Distinct cells of a grid of width `w` have distinct indices.
pub proof fn lemma_grid_index_injective(x1: int, y1: int, x2: int, y2: int, w: int)
    requires
        0 <= x1 < w,
        0 <= x2 < w,
        0 <= y1,
        0 <= y2,
        y1 * w + x1 == y2 * w + x2,
    ensures
        x1 == x2,
        y1 == y2,
{
    if y1 < y2 {
        assert(y1 * w + w <= y2 * w) by (nonlinear_arith)
            requires
                y1 < y2,
                0 <= w,
        ;
    } else if y2 < y1 {
        assert(y2 * w + w <= y1 * w) by (nonlinear_arith)
            requires
                y2 < y1,
                0 <= w,
        ;
    }
}

/// The walls given by a bitmap entry (up, right, down, left).
pub open spec fn walls_of(b: [bool; 4]) -> Direction {
    Direction { up: b@[0], right: b@[1], down: b@[2], left: b@[3] }
}

/// The segment `(x1, y1, x2, y2)` of the wall on side `facing` (0 up,
/// 1 right, 2 down, 3 left) of tile `(x, y)` of a map with tiles of `ts` pixels.
pub open spec fn wall_segment(x: int, y: int, ts: int, facing: int) -> (int, int, int, int) {
    if facing == 0 {
        (x * ts, y * ts, (x + 1) * ts, y * ts)
    } else if facing == 1 {
        ((x + 1) * ts - 1, y * ts, (x + 1) * ts - 1, (y + 1) * ts)
    } else if facing == 2 {
        (x * ts, (y + 1) * ts - 1, (x + 1) * ts, (y + 1) * ts - 1)
    } else {
        (x * ts, y * ts, x * ts, (y + 1) * ts)
    }
}

/// `v` lies in the range of `isize`.
pub open spec fn in_isize(v: int) -> bool {
    isize::MIN <= v <= isize::MAX
}

/// The wall on side `facing` of tile `(x, y)` of a grid of `tx` by `ty`
/// tiles of `ts` pixels can be computed in `isize`: the grid's dimensions
/// are `isize` values, and so is every term that `wall_segment` computes
/// for that side (`(x + 1) * ts` is `x * ts + ts`).
pub open spec fn side_fits(tx: int, ty: int, ts: int, x: int, y: int, facing: int) -> bool {
    let left = x * ts;
    let right = x * ts + ts;
    let top = y * ts;
    let bottom = y * ts + ts;
    &&& tx <= isize::MAX
    &&& ty <= isize::MAX
    &&& ts <= isize::MAX
    &&& if facing == 0 {
        in_isize(left) && in_isize(right) && in_isize(top)
    } else if facing == 1 {
        isize::MIN < right <= isize::MAX && in_isize(top) && in_isize(bottom)
    } else if facing == 2 {
        in_isize(left) && in_isize(right) && isize::MIN < bottom <= isize::MAX
    } else {
        in_isize(left) && in_isize(top) && in_isize(bottom)
    }
}

/// Every wall of tile `(x, y)` of a grid of `tx` by `ty` tiles of `ts`
/// pixels, whose walls are `tiles` row by row, can be computed in `isize`
/// (see `side_fits`).
pub open spec fn tile_fits(tx: int, ty: int, ts: int, tiles: Seq<Direction>, x: int, y: int) -> bool {
    let t = tiles[y * tx + x];
    &&& t.up ==> side_fits(tx, ty, ts, x, y, 0)
    &&& t.right ==> side_fits(tx, ty, ts, x, y, 1)
    &&& t.down ==> side_fits(tx, ty, ts, x, y, 2)
    &&& t.left ==> side_fits(tx, ty, ts, x, y, 3)
}

/// Every wall of every tile of the grid can be computed in `isize` (see
/// `tile_fits`); a tile without walls asks nothing.
pub open spec fn walls_fit(tx: int, ty: int, ts: int, tiles: Seq<Direction>) -> bool {
    forall|x: int, y: int| 0 <= x < tx && 0 <= y < ty ==> #[trigger] tile_fits(tx, ty, ts, tiles, x, y)
}

/// The whole grid of `tx` by `ty` tiles of `ts` pixels spans at most
/// `isize::MAX` pixels each way.
pub open spec fn grid_fits(tx: int, ty: int, ts: int) -> bool {
    &&& 0 <= tx <= isize::MAX
    &&& 0 <= ty <= isize::MAX
    &&& 0 <= ts <= isize::MAX
    &&& tx * ts <= isize::MAX
    &&& ty * ts <= isize::MAX
}

/// When the whole grid fits, every wall fits, whatever the walls are.
pub proof fn lemma_grid_walls_fit(tx: int, ty: int, ts: int, tiles: Seq<Direction>)
    requires
        grid_fits(tx, ty, ts),
    ensures
        walls_fit(tx, ty, ts, tiles),
{
    assert forall|x: int, y: int| 0 <= x < tx && 0 <= y < ty implies #[trigger] tile_fits(tx, ty, ts, tiles, x, y) by {
        assert(0 <= x * ts && x * ts + ts <= tx * ts) by (nonlinear_arith)
            requires
                0 <= x < tx,
                0 <= ts,
        ;
        assert(0 <= y * ts && y * ts + ts <= ty * ts) by (nonlinear_arith)
            requires
                0 <= y < ty,
                0 <= ts,
        ;
    }
}

/// Writing the entry of cell `(x0, y0)` of a row-major grid changes no
/// other cell.
pub proof fn lemma_grid_update<T>(s: Seq<T>, w: int, h: int, x0: int, y0: int, v: T, x: int, y: int)
    requires
        s.len() == w * h,
        0 <= x0 < w,
        0 <= y0 < h,
        0 <= x < w,
        0 <= y < h,
    ensures
        s.update(y0 * w + x0, v)[y * w + x] == (if x == x0 && y == y0 {
            v
        } else {
            s[y * w + x]
        }),
{
    lemma_grid_index(x0, y0, w, h);
    lemma_grid_index(x, y, w, h);
    if y0 * w + x0 == y * w + x {
        lemma_grid_index_injective(x0, y0, x, y, w);
    }
}

/// The number of entries of `v` that are `false`.
pub open spec fn unvisited(v: Seq<bool>) -> nat
    decreases v.len(),
{
    if v.len() == 0 {
        0
    } else {
        unvisited(v.drop_last()) + (if v.last() {
            0nat
        } else {
            1nat
        })
    }
}

/// Marking more entries never raises the number of unmarked ones, and
/// marking a new one lowers it.
pub proof fn lemma_unvisited_monotone(v: Seq<bool>, w: Seq<bool>, i: int)
    requires
        v.len() == w.len(),
        forall|j: int| 0 <= j < v.len() && v[j] ==> w[j],
    ensures
        unvisited(w) <= unvisited(v),
        0 <= i < v.len() && !v[i] && w[i] ==> unvisited(w) < unvisited(v),
    decreases v.len(),
{
    if v.len() > 0 {
        let n = v.len() - 1;
        assert forall|j: int| 0 <= j < n && v.drop_last()[j] implies w.drop_last()[j] by {
            assert(v[j]);
        }
        lemma_unvisited_monotone(v.drop_last(), w.drop_last(), i);
    }
}

/// A sequence of tiles in which each tile is a step away from the one
/// before it.
pub open spec fn is_walk(m: TileMap, p: Seq<(int, int)>) -> bool {
    &&& p.len() > 0
    &&& forall|i: int| 0 <= i < p.len() - 1 ==> #[trigger] m.step(p[i].0, p[i].1, p[i + 1].0, p[i + 1].1)
}

/// Tile `(bx, by)` can be reached from tile `(ax, ay)` by a sequence of steps.
pub open spec fn reachable(m: TileMap, ax: int, ay: int, bx: int, by: int) -> bool {
    exists|p: Seq<(int, int)>| is_walk(m, p) && p[0] == (ax, ay) && p.last() == (bx, by)
}

/// Every tile reaches itself.
pub proof fn lemma_reachable_refl(m: TileMap, x: int, y: int)
    ensures
        reachable(m, x, y, x, y),
{
    let p = seq![(x, y)];
    assert(is_walk(m, p) && p[0] == (x, y) && p.last() == (x, y));
}

/// A step followed by a walk is a walk.
pub proof fn lemma_reachable_step(m: TileMap, ax: int, ay: int, nx: int, ny: int, bx: int, by: int)
    requires
        m.step(ax, ay, nx, ny),
        reachable(m, nx, ny, bx, by),
    ensures
        reachable(m, ax, ay, bx, by),
{
    let q = choose|q: Seq<(int, int)>| is_walk(m, q) && q[0] == (nx, ny) && q.last() == (bx, by);
    let p = seq![(ax, ay)] + q;
    assert forall|i: int| 0 <= i < p.len() - 1 implies #[trigger] m.step(
        p[i].0,
        p[i].1,
        p[i + 1].0,
        p[i + 1].1,
    ) by {
        if i > 0 {
            assert(p[i] == q[i - 1]);
            assert(p[i + 1] == q[i]);
            assert(m.step(q[i - 1].0, q[i - 1].1, q[(i - 1) + 1].0, q[(i - 1) + 1].1));
        }
    }
    assert(p.last() == q.last());
    assert(is_walk(m, p) && p[0] == (ax, ay) && p.last() == (bx, by));
}

/// Tile `t` as a pair of integers.
pub open spec fn coord(t: (usize, usize)) -> (int, int) {
    (t.0 as int, t.1 as int)
}

/// From marks `v0` and tile list `a0` the search reached marks `v1` and
/// list `a1`: it never cleared a mark, kept `a0` as a prefix, and appended
/// every newly marked tile exactly once and nothing else.
pub open spec fn grew(
    m: TileMap,
    v0: Seq<bool>,
    a0: Seq<(usize, usize)>,
    v1: Seq<bool>,
    a1: Seq<(usize, usize)>,
) -> bool {
    &&& v0.len() == m.tiles_x * m.tiles_y
    &&& v1.len() == v0.len()
    &&& forall|i: int| 0 <= i < v0.len() && #[trigger] v0[i] ==> v1[i]
    &&& a0.len() <= a1.len()
    &&& a1.subrange(0, a0.len() as int) == a0
    &&& forall|k: int|
        a0.len() <= k < a1.len() ==> {
            &&& m.in_grid(#[trigger] a1[k].0 as int, a1[k].1 as int)
            &&& !v0[m.index_of(a1[k].0 as int, a1[k].1 as int)]
            &&& v1[m.index_of(a1[k].0 as int, a1[k].1 as int)]
        }
    &&& forall|j: int, k: int| a0.len() <= j < k < a1.len() ==> #[trigger] a1[j] != #[trigger] a1[k]
    &&& forall|i: int|
        0 <= i < v0.len() && #[trigger] v1[i] && !v0[i] ==> exists|k: int|
            a0.len() <= k < a1.len() && m.index_of(a1[k].0 as int, a1[k].1 as int) == i
}

/// Every step from a tile of `a[lo..hi]` leads to a marked tile.
pub open spec fn closed_range(m: TileMap, v: Seq<bool>, a: Seq<(usize, usize)>, lo: int, hi: int) -> bool {
    forall|k: int, nx: int, ny: int|
        lo <= k < hi && #[trigger] m.step(a[k].0 as int, a[k].1 as int, nx, ny) ==> v[m.index_of(
            nx,
            ny,
        )]
}

/// Every tile of `a[lo..hi]` can be reached from `(sx, sy)`.
pub open spec fn reach_range(m: TileMap, a: Seq<(usize, usize)>, lo: int, hi: int, sx: int, sy: int) -> bool {
    forall|k: int| lo <= k < hi ==> reachable(m, sx, sy, #[trigger] a[k].0 as int, a[k].1 as int)
}

/// A search that changed nothing grew.
pub proof fn lemma_grew_refl(m: TileMap, v: Seq<bool>, a: Seq<(usize, usize)>)
    requires
        v.len() == m.tiles_x * m.tiles_y,
    ensures
        grew(m, v, a, v, a),
{
    assert(a.subrange(0, a.len() as int) =~= a);
}

/// Two successive searches grew together.
pub proof fn lemma_grew_trans(
    m: TileMap,
    v0: Seq<bool>,
    a0: Seq<(usize, usize)>,
    v1: Seq<bool>,
    a1: Seq<(usize, usize)>,
    v2: Seq<bool>,
    a2: Seq<(usize, usize)>,
)
    requires
        grew(m, v0, a0, v1, a1),
        grew(m, v1, a1, v2, a2),
    ensures
        grew(m, v0, a0, v2, a2),
{
    assert forall|k: int| 0 <= k < a1.len() implies a2[k] == a1[k] by {
        assert(a2.subrange(0, a1.len() as int)[k] == a2[k]);
    }
    assert(a2.subrange(0, a0.len() as int) =~= a0) by {
        assert forall|k: int| 0 <= k < a0.len() implies a2.subrange(0, a0.len() as int)[k] == a0[k] by {
            assert(a1.subrange(0, a0.len() as int)[k] == a1[k]);
        }
    }
    assert forall|k: int| a0.len() <= k < a2.len() implies {
        &&& m.in_grid(#[trigger] a2[k].0 as int, a2[k].1 as int)
        &&& !v0[m.index_of(a2[k].0 as int, a2[k].1 as int)]
        &&& v2[m.index_of(a2[k].0 as int, a2[k].1 as int)]
    } by {
        if k < a1.len() {
            assert(a2[k] == a1[k]);
            let i = m.index_of(a1[k].0 as int, a1[k].1 as int);
            lemma_grid_index(a1[k].0 as int, a1[k].1 as int, m.tiles_x as int, m.tiles_y as int);
            assert(v1[i]);
        } else {
            let i = m.index_of(a2[k].0 as int, a2[k].1 as int);
            lemma_grid_index(a2[k].0 as int, a2[k].1 as int, m.tiles_x as int, m.tiles_y as int);
            assert(!v1[i]);
            if v0[i] {
                assert(v1[i]);
            }
        }
    }
    assert forall|j: int, k: int| a0.len() <= j < k < a2.len() implies #[trigger] a2[j] != #[trigger] a2[k] by {
        if k < a1.len() {
            assert(a2[j] == a1[j] && a2[k] == a1[k]);
            assert(a1[j] != a1[k]);
        } else if j < a1.len() {
            assert(a2[j] == a1[j]);
            assert(v1[m.index_of(a1[j].0 as int, a1[j].1 as int)]);
            assert(!v1[m.index_of(a2[k].0 as int, a2[k].1 as int)]);
        }
    }
    assert forall|i: int| 0 <= i < v0.len() && #[trigger] v2[i] && !v0[i] implies exists|k: int|
        a0.len() <= k < a2.len() && m.index_of(a2[k].0 as int, a2[k].1 as int) == i by {
        if v1[i] {
            let k = choose|k: int| a0.len() <= k < a1.len() && m.index_of(a1[k].0 as int, a1[k].1 as int) == i;
            assert(a2[k] == a1[k]);
        } else {
            let k = choose|k: int| a1.len() <= k < a2.len() && m.index_of(a2[k].0 as int, a2[k].1 as int) == i;
        }
    }
}

/// Bookkeeping for the search from `(x, y)` after one of its sub-searches,
/// from the neighbour `(nx, ny)`, went from `(vi, ai)` to `(vj, aj)`.
pub proof fn lemma_after_subsearch(
    m: TileMap,
    v0: Seq<bool>,
    a0: Seq<(usize, usize)>,
    vi: Seq<bool>,
    ai: Seq<(usize, usize)>,
    vj: Seq<bool>,
    aj: Seq<(usize, usize)>,
    x: int,
    y: int,
    nx: int,
    ny: int,
)
    requires
        grew(m, v0, a0, vi, ai),
        grew(m, vi, ai, vj, aj),
        ai.len() > a0.len(),
        coord(ai[a0.len() as int]) == (x, y),
        closed_range(m, vi, ai, a0.len() + 1int, ai.len() as int),
        closed_range(m, vj, aj, ai.len() as int, aj.len() as int),
        reach_range(m, ai, a0.len() as int, ai.len() as int, x, y),
        reach_range(m, aj, ai.len() as int, aj.len() as int, nx, ny),
        m.step(x, y, nx, ny),
    ensures
        grew(m, v0, a0, vj, aj),
        aj.len() >= ai.len(),
        coord(aj[a0.len() as int]) == (x, y),
        closed_range(m, vj, aj, a0.len() + 1int, aj.len() as int),
        reach_range(m, aj, a0.len() as int, aj.len() as int, x, y),
        forall|i: int| 0 <= i < vi.len() && vi[i] ==> vj[i],
{
    lemma_grew_trans(m, v0, a0, vi, ai, vj, aj);
    assert forall|k: int| 0 <= k < ai.len() implies aj[k] == ai[k] by {
        assert(aj.subrange(0, ai.len() as int)[k] == aj[k]);
    }
    assert forall|k: int, px: int, py: int|
        a0.len() + 1int <= k < aj.len() && #[trigger] m.step(aj[k].0 as int, aj[k].1 as int, px, py) implies vj[m.index_of(
        px,
        py,
    )] by {
        if k < ai.len() {
            assert(aj[k] == ai[k]);
            assert(vi[m.index_of(px, py)]);
            lemma_grid_index(px, py, m.tiles_x as int, m.tiles_y as int);
        }
    }
    assert forall|k: int| a0.len() <= k < aj.len() implies reachable(
        m,
        x,
        y,
        #[trigger] aj[k].0 as int,
        aj[k].1 as int,
    ) by {
        if k < ai.len() {
            assert(aj[k] == ai[k]);
        } else {
            lemma_reachable_step(m, x, y, nx, ny, aj[k].0 as int, aj[k].1 as int);
        }
    }
}

/// Some area among the first `bound` areas lists the tile with index `i`.
pub open spec fn listed_before(m: TileMap, ar: Seq<Vec<(usize, usize)>>, bound: int, i: int) -> bool {
    exists|b: int, j: int|
        0 <= b < bound && 0 <= j < ar[b]@.len() && #[trigger] m.index_of(ar[b]@[j].0 as int, ar[b]@[j].1 as int)
            == i
}

/// `(a, k)` names an entry of the area list.
pub open spec fn holds(ar: Seq<Vec<(usize, usize)>>, a: int, k: int) -> bool {
    0 <= a < ar.len() && 0 <= k < ar[a]@.len()
}

/// The first tile of area `a`.
pub open spec fn first_of(ar: Seq<Vec<(usize, usize)>>, a: int) -> (int, int) {
    coord(ar[a]@[0])
}

/// The areas are non-empty lists of distinct tiles of the grid; no tile is
/// listed twice; every step from a tile of area `a` leads to a tile of area
/// `a` or of an earlier area; every tile of an area is reachable from the
/// area's first tile; and every tile before the first tile of area `a` in
/// row order belongs to an earlier area.
pub open spec fn areas_valid(m: TileMap, ar: Seq<Vec<(usize, usize)>>) -> bool {
    &&& forall|a: int, k: int| #[trigger] holds(ar, a, k) ==> m.in_grid(ar[a]@[k].0 as int, ar[a]@[k].1 as int)
    &&& forall|a1: int, k1: int, a2: int, k2: int|
        #[trigger] holds(ar, a1, k1) && #[trigger] holds(ar, a2, k2) && (a1 != a2 || k1 != k2) ==> ar[a1]@[k1]
            != ar[a2]@[k2]
    &&& forall|a: int| 0 <= a < ar.len() ==> #[trigger] ar[a]@.len() > 0
    &&& forall|a: int, k: int, nx: int, ny: int|
        holds(ar, a, k) && #[trigger] m.step(ar[a]@[k].0 as int, ar[a]@[k].1 as int, nx, ny)
            ==> listed_before(m, ar, a + 1, m.index_of(nx, ny))
    &&& forall|a: int, k: int|
        #[trigger] holds(ar, a, k) ==> reachable(
            m,
            first_of(ar, a).0,
            first_of(ar, a).1,
            ar[a]@[k].0 as int,
            ar[a]@[k].1 as int,
        )
    &&& forall|a: int, i: int|
        0 <= a < ar.len() && 0 <= i < m.index_of(first_of(ar, a).0, first_of(ar, a).1) ==> #[trigger] listed_before(
            m,
            ar,
            a,
            i,
        )
}

/// Appending an area does not change what the earlier areas list.
pub proof fn lemma_listed_push(m: TileMap, ar: Seq<Vec<(usize, usize)>>, na: Vec<(usize, usize)>, b: int, i: int)
    requires
        0 <= b <= ar.len(),
    ensures
        listed_before(m, ar.push(na), b, i) == listed_before(m, ar, b, i),
{
    let ar2 = ar.push(na);
    if listed_before(m, ar2, b, i) {
        let (c, j) = choose|c: int, j: int|
            0 <= c < b && 0 <= j < ar2[c]@.len() && #[trigger] m.index_of(ar2[c]@[j].0 as int, ar2[c]@[j].1 as int) == i;
        assert(ar2[c] == ar[c]);
        assert(m.index_of(ar[c]@[j].0 as int, ar[c]@[j].1 as int) == i);
    }
    if listed_before(m, ar, b, i) {
        let (c, j) = choose|c: int, j: int|
            0 <= c < b && 0 <= j < ar[c]@.len() && #[trigger] m.index_of(ar[c]@[j].0 as int, ar[c]@[j].1 as int) == i;
        assert(ar2[c] == ar[c]);
        assert(m.index_of(ar2[c]@[j].0 as int, ar2[c]@[j].1 as int) == i);
    }
}

/// A listing among fewer areas is a listing among more.
pub proof fn lemma_listed_widen(m: TileMap, ar: Seq<Vec<(usize, usize)>>, b1: int, b2: int, i: int)
    requires
        b1 <= b2,
        listed_before(m, ar, b1, i),
    ensures
        listed_before(m, ar, b2, i),
{
    let (c, j) = choose|c: int, j: int|
        0 <= c < b1 && 0 <= j < ar[c]@.len() && #[trigger] m.index_of(ar[c]@[j].0 as int, ar[c]@[j].1 as int) == i;
    assert(m.index_of(ar[c]@[j].0 as int, ar[c]@[j].1 as int) == i);
}

/// The scan of `find_distinct_areas` stays valid when the search from the
/// first unmarked tile `(px, py)` produces a new area.
pub proof fn lemma_add_area(
    m: TileMap,
    v: Seq<bool>,
    ar: Seq<Vec<(usize, usize)>>,
    v2: Seq<bool>,
    na: Vec<(usize, usize)>,
    px: int,
    py: int,
)
    requires
        m.well_formed(),
        m.in_grid(px, py),
        areas_valid(m, ar),
        v.len() == m.tiles@.len(),
        forall|i: int| 0 <= i < v.len() ==> v[i] == #[trigger] listed_before(m, ar, ar.len() as int, i),
        forall|i: int| 0 <= i < m.index_of(px, py) ==> #[trigger] v[i],
        !v[m.index_of(px, py)],
        grew(m, v, Seq::empty(), v2, na@),
        closed_range(m, v2, na@, 0, na@.len() as int),
        reach_range(m, na@, 0, na@.len() as int, px, py),
        na@.len() > 0,
        coord(na@[0]) == (px, py),
    ensures
        areas_valid(m, ar.push(na)),
        forall|i: int| 0 <= i < v2.len() ==> v2[i] == #[trigger] listed_before(m, ar.push(na), ar.len() + 1int, i),
        forall|i: int| 0 <= i <= m.index_of(px, py) ==> #[trigger] v2[i],
{
    let ar2 = ar.push(na);
    let n = ar.len() as int;
    let tx = m.tiles_x as int;
    let ty = m.tiles_y as int;
    assert forall|b: int| 0 <= b < n implies #[trigger] ar2[b] == ar[b] by {}
    assert(ar2[n] == na);
    // Every tile of an old area is marked in v.
    assert forall|a: int, k: int| #[trigger] holds(ar, a, k) implies v[m.index_of(ar[a]@[k].0 as int, ar[a]@[k].1 as int)] by {
        lemma_grid_index(ar[a]@[k].0 as int, ar[a]@[k].1 as int, tx, ty);
        assert(listed_before(m, ar, n, m.index_of(ar[a]@[k].0 as int, ar[a]@[k].1 as int)));
    }
    // listing in the extended list
    assert forall|i: int| 0 <= i < v2.len() implies v2[i] == #[trigger] listed_before(m, ar2, n + 1, i) by {
        lemma_listed_push(m, ar, na, n, i);
        if v2[i] {
            if v[i] {
                assert(listed_before(m, ar, n, i));
                lemma_listed_widen(m, ar2, n, n + 1, i);
            } else {
                let k = choose|k: int| 0 <= k < na@.len() && m.index_of(na@[k].0 as int, na@[k].1 as int) == i;
                assert(ar2[n]@[k] == na@[k]);
                assert(m.index_of(ar2[n]@[k].0 as int, ar2[n]@[k].1 as int) == i);
            }
        }
        if listed_before(m, ar2, n + 1, i) {
            let (c, j) = choose|c: int, j: int|
                0 <= c < n + 1 && 0 <= j < ar2[c]@.len() && #[trigger] m.index_of(ar2[c]@[j].0 as int, ar2[c]@[j].1 as int) == i;
            if c < n {
                assert(holds(ar, c, j));
                assert(v[i]);
            } else {
                assert(na@[j] == ar2[c]@[j]);
            }
        }
    }
    // P1
    assert forall|a: int, k: int| #[trigger] holds(ar2, a, k) implies m.in_grid(ar2[a]@[k].0 as int, ar2[a]@[k].1 as int) by {
        if a < n {
            assert(holds(ar, a, k));
        }
    }
    // P2
    assert forall|a1: int, k1: int, a2: int, k2: int|
        #[trigger] holds(ar2, a1, k1) && #[trigger] holds(ar2, a2, k2) && (a1 != a2 || k1 != k2) implies ar2[a1]@[k1]
        != ar2[a2]@[k2] by {
        if a1 < n && a2 < n {
            assert(holds(ar, a1, k1) && holds(ar, a2, k2));
        } else if a1 < n {
            assert(holds(ar, a1, k1));
            lemma_grid_index(ar[a1]@[k1].0 as int, ar[a1]@[k1].1 as int, tx, ty);
            assert(v[m.index_of(ar[a1]@[k1].0 as int, ar[a1]@[k1].1 as int)]);
            assert(!v[m.index_of(na@[k2].0 as int, na@[k2].1 as int)]);
        } else if a2 < n {
            assert(holds(ar, a2, k2));
            lemma_grid_index(ar[a2]@[k2].0 as int, ar[a2]@[k2].1 as int, tx, ty);
            assert(v[m.index_of(ar[a2]@[k2].0 as int, ar[a2]@[k2].1 as int)]);
            assert(!v[m.index_of(na@[k1].0 as int, na@[k1].1 as int)]);
        } else {
            if k1 < k2 {
                assert(na@[k1] != na@[k2]);
            } else {
                assert(na@[k2] != na@[k1]);
            }
        }
    }
    // P4
    assert forall|a: int| 0 <= a < ar2.len() implies #[trigger] ar2[a]@.len() > 0 by {
        if a < n {
            assert(ar[a]@.len() > 0);
        }
    }
    // P5
    assert forall|a: int, k: int, nx: int, ny: int|
        holds(ar2, a, k) && #[trigger] m.step(ar2[a]@[k].0 as int, ar2[a]@[k].1 as int, nx, ny) implies listed_before(
        m,
        ar2,
        a + 1,
        m.index_of(nx, ny),
    ) by {
        if a < n {
            assert(holds(ar, a, k));
            assert(listed_before(m, ar, a + 1, m.index_of(nx, ny)));
            lemma_listed_push(m, ar, na, a + 1, m.index_of(nx, ny));
        } else {
            assert(ar2[a]@[k] == na@[k]);
            assert(v2[m.index_of(nx, ny)]);
            lemma_grid_index(nx, ny, tx, ty);
        }
    }
    // P6
    assert forall|a: int, k: int| #[trigger] holds(ar2, a, k) implies reachable(
        m,
        first_of(ar2, a).0,
        first_of(ar2, a).1,
        ar2[a]@[k].0 as int,
        ar2[a]@[k].1 as int,
    ) by {
        if a < n {
            assert(holds(ar, a, k));
        } else {
            assert(ar2[a]@[k] == na@[k]);
            assert(reachable(m, px, py, na@[k].0 as int, na@[k].1 as int));
        }
    }
    // P7
    assert forall|a: int, i: int|
        0 <= a < ar2.len() && 0 <= i < m.index_of(first_of(ar2, a).0, first_of(ar2, a).1) implies #[trigger] listed_before(
        m,
        ar2,
        a,
        i,
    ) by {
        if a < n {
            assert(ar2[a] == ar[a]);
            assert(listed_before(m, ar, a, i));
            lemma_listed_push(m, ar, na, a, i);
        } else {
            lemma_grid_index(px, py, tx, ty);
            assert(v[i]);
            assert(listed_before(m, ar, n, i));
            lemma_listed_push(m, ar, na, n, i);
        }
    }
    assert forall|i: int| 0 <= i <= m.index_of(px, py) implies #[trigger] v2[i] by {
        lemma_grid_index(px, py, tx, ty);
        if i < m.index_of(px, py) {
            assert(v[i]);
        }
    }
}

/// The number of walls of one tile.
pub open spec fn wall_bits(d: Direction) -> nat {
    (if d.up { 1nat } else { 0nat }) + (if d.right { 1nat } else { 0nat }) + (if d.down { 1nat } else { 0nat })
        + (if d.left { 1nat } else { 0nat })
}

/// The number of walls of all tiles together (a wall shared by two tiles
/// counts once per tile that has it).
pub open spec fn wall_count(s: Seq<Direction>) -> nat
    decreases s.len(),
{
    if s.len() == 0 {
        0
    } else {
        wall_count(s.drop_last()) + wall_bits(s.last())
    }
}

/// Replacing one tile changes the wall count by the difference of the
/// two tiles' walls.
pub proof fn lemma_wall_count_update(s: Seq<Direction>, i: int, d: Direction)
    requires
        0 <= i < s.len(),
    ensures
        wall_count(s.update(i, d)) + wall_bits(s[i]) == wall_count(s) + wall_bits(d),
    decreases s.len(),
{
    let t = s.update(i, d);
    if i == s.len() - 1 {
        assert(t.drop_last() =~= s.drop_last());
    } else {
        lemma_wall_count_update(s.drop_last(), i, d);
        assert(t.drop_last() =~= s.drop_last().update(i, d));
    }
}

/// Tile `d` has no wall that tile `e` lacks.
pub open spec fn fewer_walls(d: Direction, e: Direction) -> bool {
    &&& (d.up ==> e.up)
    &&& (d.right ==> e.right)
    &&& (d.down ==> e.down)
    &&& (d.left ==> e.left)
}

/// Tile `(x, y)` is listed in `area`.
pub open spec fn in_area(area: Seq<(usize, usize)>, x: int, y: int) -> bool {
    exists|k: int| 0 <= k < area.len() && #[trigger] coord(area[k]) == (x, y)
}

/// Whether `area` lists tile `(x, y)`.
fn area_contains(area: &Vec<(usize, usize)>, x: usize, y: usize) -> (r: bool)
    ensures
        r == in_area(area@, x as int, y as int),
{
    let mut k: usize = 0;
    while k < area.len()
        invariant
            0 <= k <= area@.len(),
            forall|j: int| 0 <= j < k ==> #[trigger] coord(area@[j]) != (x as int, y as int),
        decreases area@.len() - k,
    {
        let t = area[k];
        if t.0 == x && t.1 == y {
            assert(coord(area@[k as int]) == (x as int, y as int));
            return true;
        }
        k = k + 1;
    }
    false
}

/// Walking right along row `y` from a tile of `area` to one outside it
/// crosses a pair of neighbours with the left one inside and the right one
/// outside.
pub proof fn lemma_row_crossing(area: Seq<(usize, usize)>, x: int, ux: int, y: int) -> (cx: int)
    requires
        x < ux,
        in_area(area, x, y),
        !in_area(area, ux, y),
    ensures
        x <= cx < ux,
        in_area(area, cx, y),
        !in_area(area, cx + 1, y),
    decreases ux - x,
{
    if !in_area(area, x + 1, y) {
        x
    } else {
        lemma_row_crossing(area, x + 1, ux, y)
    }
}

/// Walking down column `x` from a tile of `area` to one outside it crosses
/// a pair of neighbours with the upper one inside and the lower one outside.
pub proof fn lemma_column_crossing(area: Seq<(usize, usize)>, x: int, y: int, uy: int) -> (cy: int)
    requires
        y < uy,
        in_area(area, x, y),
        !in_area(area, x, uy),
    ensures
        y <= cy < uy,
        in_area(area, x, cy),
        !in_area(area, x, cy + 1),
    decreases uy - y,
{
    if !in_area(area, x, y + 1) {
        y
    } else {
        lemma_column_crossing(area, x, y + 1, uy)
    }
}

/// The walls `s` of a map with the dimensions of `m` arise from those of
/// `m` by removing walls that are not on the border of the map.
#[verifier::opaque]
pub open spec fn removed_inner_walls(m: TileMap, s: Seq<Direction>) -> bool {
    &&& s.len() == m.tiles@.len()
    &&& forall|x: int, y: int|
        m.in_grid(x, y) ==> {
            let d = #[trigger] s[m.index_of(x, y)];
            let e = m.tile(x, y);
            &&& fewer_walls(d, e)
            &&& (y == 0 ==> d.up == e.up)
            &&& (x == m.tiles_x - 1 ==> d.right == e.right)
            &&& (y == m.tiles_y - 1 ==> d.down == e.down)
            &&& (x == 0 ==> d.left == e.left)
        }
}

/// A wall that is gone stays gone when only walls are removed.
pub proof fn lemma_removed_keeps_gone(m: TileMap, s: Seq<Direction>, x: int, y: int, f: int)
    requires
        removed_inner_walls(m, s),
        m.in_grid(x, y),
        !has_wall(m.tile(x, y), f),
    ensures
        !has_wall(s[m.index_of(x, y)], f),
{
    reveal(removed_inner_walls);
    let d = s[m.index_of(x, y)];
    assert(fewer_walls(d, m.tile(x, y)));
}

/// Replacing the walls of tile `(x, y)` by fewer walls, none of them on the
/// border, keeps `removed_inner_walls`.
pub proof fn lemma_remove_inner(m: TileMap, s: Seq<Direction>, x: int, y: int, d: Direction)
    requires
        m.well_formed(),
        m.in_grid(x, y),
        removed_inner_walls(m, s),
        fewer_walls(d, s[m.index_of(x, y)]),
        y == 0 ==> d.up == s[m.index_of(x, y)].up,
        x == m.tiles_x - 1 ==> d.right == s[m.index_of(x, y)].right,
        y == m.tiles_y - 1 ==> d.down == s[m.index_of(x, y)].down,
        x == 0 ==> d.left == s[m.index_of(x, y)].left,
    ensures
        removed_inner_walls(m, s.update(m.index_of(x, y), d)),
        wall_count(s.update(m.index_of(x, y), d)) + wall_bits(s[m.index_of(x, y)]) == wall_count(s)
            + wall_bits(d),
{
    reveal(removed_inner_walls);
    let tx = m.tiles_x as int;
    let ty = m.tiles_y as int;
    lemma_grid_index(x, y, tx, ty);
    lemma_wall_count_update(s, m.index_of(x, y), d);
    assert forall|cx: int, cy: int| m.in_grid(cx, cy) implies {
        let d2 = #[trigger] s.update(m.index_of(x, y), d)[m.index_of(cx, cy)];
        let e = m.tile(cx, cy);
        &&& fewer_walls(d2, e)
        &&& (cy == 0 ==> d2.up == e.up)
        &&& (cx == m.tiles_x - 1 ==> d2.right == e.right)
        &&& (cy == m.tiles_y - 1 ==> d2.down == e.down)
        &&& (cx == 0 ==> d2.left == e.left)
    } by {
        lemma_grid_update(s, tx, ty, x, y, d, cx, cy);
        let _ = s[m.index_of(cx, cy)];
    }
}

/// Keeping all walls removes no border wall.
pub proof fn lemma_removed_refl(m: TileMap)
    ensures
        removed_inner_walls(m, m.tiles@),
{
    reveal(removed_inner_walls);
    assert forall|x: int, y: int| m.in_grid(x, y) implies {
        let d = #[trigger] m.tiles@[m.index_of(x, y)];
        let e = m.tile(x, y);
        &&& fewer_walls(d, e)
        &&& (y == 0 ==> d.up == e.up)
        &&& (x == m.tiles_x - 1 ==> d.right == e.right)
        &&& (y == m.tiles_y - 1 ==> d.down == e.down)
        &&& (x == 0 ==> d.left == e.left)
    } by {}
}

/// Removing inner walls twice removes inner walls.
pub proof fn lemma_removed_trans(m0: TileMap, m1: TileMap, s2: Seq<Direction>)
    requires
        m0.well_formed(),
        m1.same_shape(&m0),
        removed_inner_walls(m0, m1.tiles@),
        removed_inner_walls(m1, s2),
    ensures
        removed_inner_walls(m0, s2),
{
    reveal(removed_inner_walls);
    assert forall|x: int, y: int| m0.in_grid(x, y) implies {
        let d = #[trigger] s2[m0.index_of(x, y)];
        let e = m0.tile(x, y);
        &&& fewer_walls(d, e)
        &&& (y == 0 ==> d.up == e.up)
        &&& (x == m0.tiles_x - 1 ==> d.right == e.right)
        &&& (y == m0.tiles_y - 1 ==> d.down == e.down)
        &&& (x == 0 ==> d.left == e.left)
    } by {
        let _ = m1.tiles@[m0.index_of(x, y)];
        assert(m1.in_grid(x, y));
        let _ = s2[m1.index_of(x, y)];
    }
}

/// With at most one area that lists every tile, every tile can be reached
/// from the top-left tile.
pub proof fn lemma_one_area_connected(m: TileMap, ar: Seq<Vec<(usize, usize)>>)
    requires
        m.well_formed(),
        areas_valid(m, ar),
        ar.len() <= 1,
        forall|x: int, y: int|
            m.in_grid(x, y) ==> #[trigger] listed_before(m, ar, ar.len() as int, m.index_of(x, y)),
    ensures
        forall|x: int, y: int| m.in_grid(x, y) ==> #[trigger] reachable(m, 0, 0, x, y),
{
    let tx = m.tiles_x as int;
    let ty = m.tiles_y as int;
    assert forall|x: int, y: int| m.in_grid(x, y) implies #[trigger] reachable(m, 0, 0, x, y) by {
        assert(listed_before(m, ar, ar.len() as int, m.index_of(x, y)));
        let (b, j) = choose|b: int, j: int|
            0 <= b < ar.len() && 0 <= j < ar[b]@.len() && #[trigger] m.index_of(ar[b]@[j].0 as int, ar[b]@[j].1 as int)
                == m.index_of(x, y);
        assert(b == 0);
        assert(holds(ar, 0, j));
        assert(holds(ar, 0, 0));
        lemma_grid_index_injective(ar[0]@[j].0 as int, ar[0]@[j].1 as int, x, y, tx);
        let f = first_of(ar, 0);
        lemma_grid_index(f.0, f.1, tx, ty);
        if m.index_of(f.0, f.1) > 0 {
            assert(listed_before(m, ar, 0, 0));
            assert(false);
        }
        lemma_grid_index_injective(f.0, f.1, 0, 0, tx);
    }
}

/// Decoding the byte form of a well-formed map whose numbers fit in 32
/// bits gives the map back.
pub proof fn lemma_map_round_trip(m: TileMap)
    requires
        m.well_formed(),
        m.size_x <= u32::MAX,
        m.size_y <= u32::MAX,
        m.tiles_x <= u32::MAX,
        m.tiles_y <= u32::MAX,
        m.tile_size <= u32::MAX,
    ensures
        is_map_data(map_bytes(m)),
        header_field(map_bytes(m), 0) == m.size_x,
        header_field(map_bytes(m), 1) == m.size_y,
        header_field(map_bytes(m), 2) == m.tiles_x,
        header_field(map_bytes(m), 3) == m.tiles_y,
        header_field(map_bytes(m), 4) == m.tile_size,
        decoded_tiles(map_bytes(m)) == m.tiles@,
{
    let d = map_bytes(m);
    lemma_le_u32_round_trip(m.size_x as u32, 0, 0, 0, 0);
    lemma_le_u32_round_trip(m.size_y as u32, 0, 0, 0, 0);
    lemma_le_u32_round_trip(m.tiles_x as u32, 0, 0, 0, 0);
    lemma_le_u32_round_trip(m.tiles_y as u32, 0, 0, 0, 0);
    lemma_le_u32_round_trip(m.tile_size as u32, 0, 0, 0, 0);
    assert(d.len() == 20 + m.tiles@.len());
    assert(header_field(d, 0) == m.size_x);
    assert(header_field(d, 1) == m.size_y);
    assert(header_field(d, 2) == m.tiles_x);
    assert(header_field(d, 3) == m.tiles_y);
    assert(header_field(d, 4) == m.tile_size);
    assert forall|i: int| 0 <= i < m.tiles@.len() implies #[trigger] decoded_tiles(d)[i] == m.tiles@[i] by {
        assert(d[20 + i] == m.tiles@[i].to_byte());
        lemma_direction_round_trip(m.tiles@[i]);
    }
    assert(decoded_tiles(d) =~= m.tiles@);
}

/// The test by which `remove_one_wall_per_area` picks the wall to remove at
/// tile `(x, y)` of `area`: a wall towards a neighbour outside the area.
pub open spec fn removable(m: TileMap, area: Seq<(usize, usize)>, x: int, y: int) -> bool {
    ||| (y > 0 && m.tile(x, y).up && !in_area(area, x, y - 1))
    ||| (x + 1 < m.tiles_x && (m.tile(x, y).right || m.tile(x + 1, y).left) && !in_area(area, x + 1, y))
    ||| (y + 1 < m.tiles_y && (m.tile(x, y).down || m.tile(x, y + 1).up) && !in_area(area, x, y + 1))
    ||| (x > 0 && m.tile(x, y).left && !in_area(area, x - 1, y))
}

/// When the search found more than one area, the first area has a tile
/// with a wall towards a tile outside the area.
pub proof fn lemma_first_area_has_exit(m: TileMap, ar: Seq<Vec<(usize, usize)>>) -> (k: int)
    requires
        m.well_formed(),
        areas_valid(m, ar),
        ar.len() >= 2,
    ensures
        0 <= k < ar[0]@.len(),
        removable(m, ar[0]@, ar[0]@[k].0 as int, ar[0]@[k].1 as int),
{
    let tx = m.tiles_x as int;
    let ty = m.tiles_y as int;
    let a0 = ar[0]@;
    assert(ar[0]@.len() > 0);
    assert(ar[1]@.len() > 0);
    assert(holds(ar, 0, 0));
    assert(holds(ar, 1, 0));
    let f = first_of(ar, 0);
    lemma_grid_index(f.0, f.1, tx, ty);
    if m.index_of(f.0, f.1) > 0 {
        assert(listed_before(m, ar, 0, 0));
        assert(false);
    }
    lemma_grid_index_injective(f.0, f.1, 0, 0, tx);
    assert(in_area(a0, 0, 0)) by {
        assert(coord(a0[0]) == (0int, 0int));
    }
    let u = coord(ar[1]@[0]);
    assert(!in_area(a0, u.0, u.1)) by {
        if in_area(a0, u.0, u.1) {
            let j = choose|j: int| 0 <= j < a0.len() && #[trigger] coord(a0[j]) == (u.0, u.1);
            assert(holds(ar, 0, j));
            assert(ar[0]@[j] != ar[1]@[0]);
        }
    }
    // A tile inside the area whose right or lower neighbour lies outside.
    let (tx0, ty0, nx, ny) = if !in_area(a0, u.0, 0) {
        let cx = lemma_row_crossing(a0, 0, u.0, 0);
        (cx, 0int, cx + 1, 0int)
    } else {
        let cy = lemma_column_crossing(a0, u.0, 0, u.1);
        (u.0, cy, u.0, cy + 1)
    };
    assert(m.in_grid(nx, ny));
    let k = choose|k: int| 0 <= k < a0.len() && #[trigger] coord(a0[k]) == (tx0, ty0);
    assert(holds(ar, 0, k));
    if !removable(m, a0, tx0, ty0) {
        assert(m.step(tx0, ty0, nx, ny));
        assert(m.step(ar[0]@[k].0 as int, ar[0]@[k].1 as int, nx, ny));
        assert(listed_before(m, ar, 1, m.index_of(nx, ny)));
        let (b, j) = choose|b: int, j: int|
            0 <= b < 1 && 0 <= j < ar[b]@.len() && #[trigger] m.index_of(ar[b]@[j].0 as int, ar[b]@[j].1 as int)
                == m.index_of(nx, ny);
        assert(holds(ar, 0, j));
        lemma_grid_index_injective(ar[0]@[j].0 as int, ar[0]@[j].1 as int, nx, ny, tx);
        assert(coord(a0[j]) == (nx, ny));
        assert(false);
    }
    k
}

/// The walls of tile `(x, y)` that map generation starts from: the drawn
/// top and left walls of the tile (entry `index` of `draws`), closed by the
/// border of a `tx` by `ty` map.
pub open spec fn generated_walls(draws: Seq<(bool, bool)>, index: int, x: int, y: int, tx: int, ty: int) -> Direction {
    Direction {
        up: draws[index].0 || y == 0,
        right: x == tx - 1,
        down: y == ty - 1,
        left: draws[index].1 || x == 0,
    }
}

/// The walls of `m` come from the random draws: every tile has at most the
/// walls that the draws and the border give it (see `generated_walls`),
/// the border is closed, and every tile can be reached from the top-left
/// tile.
pub open spec fn walls_from_draws(m: TileMap, draws: Seq<(bool, bool)>) -> bool {
    &&& forall|x: int, y: int|
        m.in_grid(x, y) ==> {
            let d = #[trigger] m.tile(x, y);
            let g = generated_walls(draws, m.index_of(x, y), x, y, m.tiles_x as int, m.tiles_y as int);
            &&& fewer_walls(d, g)
            &&& (y == 0 ==> d.up)
            &&& (x == m.tiles_x - 1 ==> d.right)
            &&& (y == m.tiles_y - 1 ==> d.down)
            &&& (x == 0 ==> d.left)
        }
    &&& forall|x: int, y: int| m.in_grid(x, y) ==> #[trigger] reachable(m, 0, 0, x, y)
}

/// Whether the area search of a `tx` by `ty` grid whose walls are `s`, row
/// by row, moves from tile `(x, y)` to its neighbour on side `side` (0 up,
/// 1 right, 2 down, 3 left): up or left when the tile has no wall there,
/// right or down when neither the tile nor the neighbour has one.
pub open spec fn opens(tx: int, ty: int, s: Seq<Direction>, x: int, y: int, side: int) -> bool {
    let i = y * tx + x;
    if side == 0 {
        y > 0 && !s[i].up
    } else if side == 1 {
        x + 1 < tx && !s[i].right && !s[i + 1].left
    } else if side == 2 {
        y + 1 < ty && !s[i].down && !s[i + tx].up
    } else {
        x > 0 && !s[i].left
    }
}

/// The depth-first search of `flood_fill` from tile `(x, y)`, given the
/// marks `v` and the listed tiles `a` before it: the marks and the list
/// after it. An unmarked tile is marked and appended, and the search goes
/// on from the neighbours it opens to (see `opens`), in the order up,
/// right, down, left. `depth` bounds the nesting of the search;
/// `unvisited(v)` is always enough.
pub open spec fn fill(
    tx: int,
    ty: int,
    s: Seq<Direction>,
    x: int,
    y: int,
    v: Seq<bool>,
    a: Seq<(usize, usize)>,
    depth: nat,
) -> (Seq<bool>, Seq<(usize, usize)>)
    decreases depth,
{
    if depth == 0 || v[y * tx + x] {
        (v, a)
    } else {
        let d = (depth - 1) as nat;
        let v1 = v.update(y * tx + x, true);
        let a1 = a.push((x as usize, y as usize));
        let r1 = if opens(tx, ty, s, x, y, 0) {
            fill(tx, ty, s, x, y - 1, v1, a1, d)
        } else {
            (v1, a1)
        };
        let r2 = if opens(tx, ty, s, x, y, 1) {
            fill(tx, ty, s, x + 1, y, r1.0, r1.1, d)
        } else {
            r1
        };
        let r3 = if opens(tx, ty, s, x, y, 2) {
            fill(tx, ty, s, x, y + 1, r2.0, r2.1, d)
        } else {
            r2
        };
        if opens(tx, ty, s, x, y, 3) {
            fill(tx, ty, s, x - 1, y, r3.0, r3.1, d)
        } else {
            r3
        }
    }
}

/// The areas that `find_distinct_areas` lists, continuing its row-by-row
/// scan at tile `(x, y)` with marks `v` and the areas `acc` found so far:
/// each unmarked tile starts a new area, filled by the search of `fill`.
pub open spec fn scan(
    tx: int,
    ty: int,
    s: Seq<Direction>,
    x: int,
    y: int,
    v: Seq<bool>,
    acc: Seq<Seq<(usize, usize)>>,
) -> Seq<Seq<(usize, usize)>>
    decreases ty - y, tx - x,
{
    if y >= ty || tx <= 0 {
        acc
    } else if x >= tx {
        scan(tx, ty, s, 0, y + 1, v, acc)
    } else if v[y * tx + x] {
        scan(tx, ty, s, x + 1, y, v, acc)
    } else {
        let r = fill(tx, ty, s, x, y, v, Seq::empty(), unvisited(v));
        scan(tx, ty, s, x + 1, y, r.0, acc.push(r.1))
    }
}

/// The areas of a `tx` by `ty` grid with walls `s`, in the order and with
/// the tiles in the order in which `find_distinct_areas` lists them.
pub open spec fn distinct_areas(tx: int, ty: int, s: Seq<Direction>) -> Seq<Seq<(usize, usize)>> {
    scan(tx, ty, s, 0, 0, Seq::new(s.len(), |i: int| false), Seq::empty())
}

/// The tiles of each area.
pub open spec fn views(ar: Seq<Vec<(usize, usize)>>) -> Seq<Seq<(usize, usize)>> {
    ar.map_values(|a: Vec<(usize, usize)>| a@)
}

/// The side of tile `(x, y)` whose wall the joining step removes for
/// `area`: the first of up, right, down and left with a wall towards a tile
/// outside the area (on the right and below, the neighbour's facing wall
/// counts too); 4 when there is none.
pub open spec fn exit_side(tx: int, ty: int, s: Seq<Direction>, area: Seq<(usize, usize)>, x: int, y: int) -> int {
    let i = y * tx + x;
    if y > 0 && s[i].up && !in_area(area, x, y - 1) {
        0
    } else if x + 1 < tx && (s[i].right || s[i + 1].left) && !in_area(area, x + 1, y) {
        1
    } else if y + 1 < ty && (s[i].down || s[i + tx].up) && !in_area(area, x, y + 1) {
        2
    } else if x > 0 && s[i].left && !in_area(area, x - 1, y) {
        3
    } else {
        4
    }
}

/// The walls after the joining step removes the wall on side `side` of
/// tile `(x, y)`: the top or the left wall of the tile alone, the right
/// wall together with the right neighbour's left wall, the bottom wall
/// together with the lower neighbour's top wall.
pub open spec fn without_wall(tx: int, s: Seq<Direction>, x: int, y: int, side: int) -> Seq<Direction> {
    let i = y * tx + x;
    let t = s[i];
    if side == 0 {
        s.update(i, Direction { up: false, right: t.right, down: t.down, left: t.left })
    } else if side == 1 {
        let n = s[i + 1];
        s.update(i, Direction { up: t.up, right: false, down: t.down, left: t.left }).update(
            i + 1,
            Direction { up: n.up, right: n.right, down: n.down, left: false },
        )
    } else if side == 2 {
        let n = s[i + tx];
        s.update(i, Direction { up: t.up, right: t.right, down: false, left: t.left }).update(
            i + tx,
            Direction { up: false, right: n.right, down: n.down, left: n.left },
        )
    } else {
        s.update(i, Direction { up: t.up, right: t.right, down: t.down, left: false })
    }
}

/// The wall that the joining step removes for `area`, trying its tiles
/// from the `k`-th on: (column, row, side) of the first tile with an exit
/// (see `exit_side`), or none.
pub open spec fn area_exit(tx: int, ty: int, s: Seq<Direction>, area: Seq<(usize, usize)>, k: int) -> Option<
    (usize, usize, usize),
>
    decreases area.len() - k,
{
    if k < 0 || k >= area.len() {
        None
    } else {
        let side = exit_side(tx, ty, s, area, area[k].0 as int, area[k].1 as int);
        if side < 4 {
            Some((area[k].0, area[k].1, side as usize))
        } else {
            area_exit(tx, ty, s, area, k + 1)
        }
    }
}

/// The joining step over areas `a` up to `n` of `areas`, in order, starting
/// from walls `s` with the removed walls `acc` so far: for each area its
/// wall of `area_exit` is removed, on the walls as the earlier areas left
/// them. Gives the walls after it and all removed walls, in order.
pub open spec fn join_from(
    tx: int,
    ty: int,
    s: Seq<Direction>,
    areas: Seq<Seq<(usize, usize)>>,
    a: int,
    n: int,
    acc: Seq<(usize, usize, usize)>,
) -> (Seq<Direction>, Seq<(usize, usize, usize)>)
    decreases n - a,
{
    if a < 0 || a >= n {
        (s, acc)
    } else {
        match area_exit(tx, ty, s, areas[a], 0) {
            None => join_from(tx, ty, s, areas, a + 1, n, acc),
            Some(r) => join_from(tx, ty, without_wall(tx, s, r.0 as int, r.1 as int, r.2 as int), areas, a + 1, n, acc.push(r)),
        }
    }
}

/// The walls after joining rounds, at most `rounds` of them: while the
/// search finds more than one area (see `distinct_areas`), a round runs
/// the joining step over every area but the last (see `join_from`). Each
/// round removes a wall, so `wall_count(s)` rounds are enough.
pub open spec fn join_rounds(tx: int, ty: int, s: Seq<Direction>, rounds: nat) -> Seq<Direction>
    decreases rounds,
{
    let ar = distinct_areas(tx, ty, s);
    if rounds == 0 || ar.len() <= 1 {
        s
    } else {
        join_rounds(tx, ty, join_from(tx, ty, s, ar, 0, ar.len() - 1, Seq::empty()).0, (rounds - 1) as nat)
    }
}

/// The walls that map generation starts from, row by row (see
/// `generated_walls`).
pub open spec fn drawn_walls(tx: int, ty: int, draws: Seq<(bool, bool)>) -> Seq<Direction> {
    Seq::new((tx * ty) as nat, |i: int| generated_walls(draws, i, i % tx, i / tx, tx, ty))
}

/// The walls that `TileMap::auto_set_walls` generates for a `tx` by `ty`
/// map from `draws`: the drawn walls closed by the border (see
/// `drawn_walls`), joined round by round until one area remains (see
/// `join_rounds`).
pub open spec fn generated_map(tx: int, ty: int, draws: Seq<(bool, bool)>) -> Seq<Direction> {
    let s = drawn_walls(tx, ty, draws);
    join_rounds(tx, ty, s, wall_count(s))
}

/// One byte per tile (see `Direction::to_byte`).
pub open spec fn tile_bytes(s: Seq<Direction>) -> Seq<u8> {
    s.map_values(|d: Direction| d.to_byte())
}

/// The byte form of a map: `size_x`, `size_y`, `tiles_x`, `tiles_y` and
/// `tile_size`, each as four little-endian bytes of the number truncated to
/// 32 bits, then one byte per tile.
pub open spec fn map_bytes(m: TileMap) -> Seq<u8> {
    le_u32(m.size_x as u32) + le_u32(m.size_y as u32) + le_u32(m.tiles_x as u32) + le_u32(
        m.tiles_y as u32,
    ) + le_u32(m.tile_size as u32) + tile_bytes(m.tiles@)
}

/// The `k`-th number of the header of a map's byte form.
pub open spec fn header_field(data: Seq<u8>, k: int) -> usize {
    from_le_u32(data[4 * k], data[4 * k + 1], data[4 * k + 2], data[4 * k + 3]) as usize
}

/// The number of tiles that the header of a map's byte form announces.
pub open spec fn header_tiles(data: Seq<u8>) -> int {
    header_field(data, 2) * header_field(data, 3)
}

/// The bytes hold a header and at least as many tile bytes as the header
/// announces.
pub open spec fn is_map_data(data: Seq<u8>) -> bool {
    &&& data.len() >= 20
    &&& 20 + header_tiles(data) <= data.len()
}

/// The tiles decoded from a map's byte form.
pub open spec fn decoded_tiles(data: Seq<u8>) -> Seq<Direction> {
    data.subrange(20, 20 + header_tiles(data)).map_values(|b: u8| Direction::from_byte(b))
}

/// Whether the bytes hold a map (see `is_map_data`).
pub fn is_valid_map_data(data: &[u8]) -> (b: bool)
    ensures
        b == is_map_data(data@),
{
    let len = data.len();
    if len < 20 {
        return false;
    }
    let tx = read_le_u32(data, 8) as u64;
    let ty = read_le_u32(data, 12) as u64;
    proof {
        assert(tx * ty <= 0xffff_ffff * 0xffff_ffff) by (nonlinear_arith)
            requires
                tx <= 0xffff_ffff,
                ty <= 0xffff_ffff,
        ;
    }
    let tiles = tx * ty;
    tiles <= (len - 20) as u64
}

/// The game map: a grid of `tiles_x` by `tiles_y` tiles of `tile_size`
/// pixels, with the walls of each tile stored row by row in `tiles`.
pub struct TileMap {
    pub size_x: usize,
    pub size_y: usize,
    pub tiles_x: usize,
    pub tiles_y: usize,
    pub tile_size: usize,
    pub tiles: Vec<Direction>,
}

impl Clone for TileMap {
    /// Copies the map.
    fn clone(&self) -> (res: Self)
        ensures
            res.same_shape(self),
            res.tiles@ == self.tiles@,
    {
        TileMap {
            size_x: self.size_x,
            size_y: self.size_y,
            tiles_x: self.tiles_x,
            tiles_y: self.tiles_y,
            tile_size: self.tile_size,
            tiles: self.tiles.clone(),
        }
    }
}

impl TileMap {
    /// The tile list holds exactly one entry per tile of the grid.
    pub open spec fn well_formed(&self) -> bool {
        self.tiles@.len() == self.tiles_x * self.tiles_y
    }

    /// Whether `(x, y)` is a tile of the grid.
    pub open spec fn in_grid(&self, x: int, y: int) -> bool {
        0 <= x < self.tiles_x && 0 <= y < self.tiles_y
    }

    /// The position of tile `(x, y)` in `tiles`.
    pub open spec fn index_of(&self, x: int, y: int) -> int {
        y * self.tiles_x + x
    }

    /// The walls of tile `(x, y)`.
    pub open spec fn tile(&self, x: int, y: int) -> Direction {
        self.tiles@[self.index_of(x, y)]
    }

    /// Two maps have the same dimensions.
    pub open spec fn same_shape(&self, other: &TileMap) -> bool {
        &&& self.size_x == other.size_x
        &&& self.size_y == other.size_y
        &&& self.tiles_x == other.tiles_x
        &&& self.tiles_y == other.tiles_y
        &&& self.tile_size == other.tile_size
        &&& self.tiles@.len() == other.tiles@.len()
    }

    /// Whether the area search moves from tile `(x, y)` to tile `(nx, ny)`:
    /// up or left when the tile has no wall on that side, right or down when
    /// neither the tile nor its neighbour has a wall between them.
    pub open spec fn step(&self, x: int, y: int, nx: int, ny: int) -> bool {
        &&& self.in_grid(x, y)
        &&& {
            ||| (nx == x && ny == y - 1 && y > 0 && !self.tile(x, y).up)
            ||| (nx == x + 1 && ny == y && x + 1 < self.tiles_x && !self.tile(x, y).right
                && !self.tile(x + 1, y).left)
            ||| (nx == x && ny == y + 1 && y + 1 < self.tiles_y && !self.tile(x, y).down
                && !self.tile(x, y + 1).up)
            ||| (nx == x - 1 && ny == y && x > 0 && !self.tile(x, y).left)
        }
    }

    /// Creates a map of the given size whose tiles have no walls.
    pub fn new(size_x: usize, size_y: usize, tiles_x: usize, tiles_y: usize, tile_size: usize) -> (m: Self)
        requires
            tiles_x * tiles_y <= usize::MAX,
        ensures
            m.size_x == size_x,
            m.size_y == size_y,
            m.tiles_x == tiles_x,
            m.tiles_y == tiles_y,
            m.tile_size == tile_size,
            m.well_formed(),
            forall|i: int| 0 <= i < m.tiles@.len() ==> m.tiles@[i] == Direction::open_tile(),
    {
        let n = tiles_x * tiles_y;
        let tile_walls = vec![Direction { up: false, down: false, left: false, right: false }; n];
        TileMap { size_x, size_y, tiles_x, tiles_y, tile_size, tiles: tile_walls }
    }

    /// Returns the segment `(x1, y1, x2, y2)` of the wall on side `facing`
    /// (0 up, 1 right, 2 down, 3 left) of tile `(x, y)`.
    pub fn wall_coords(&self, x: isize, y: isize, facing: isize) -> (r: (isize, isize, isize, isize))
        requires
            x < self.tiles_x,
            y < self.tiles_y,
            0 <= facing < 4,
            side_fits(
                self.tiles_x as int,
                self.tiles_y as int,
                self.tile_size as int,
                x as int,
                y as int,
                facing as int,
            ),
        ensures
            (r.0 as int, r.1 as int, r.2 as int, r.3 as int) == wall_segment(
                x as int,
                y as int,
                self.tile_size as int,
                facing as int,
            ),
    {
        let ts = self.tile_size as isize;
        proof {
            let tsi = ts as int;
            assert((x + 1) * tsi == x * tsi + tsi) by (nonlinear_arith);
            assert((y + 1) * tsi == y * tsi + tsi) by (nonlinear_arith);
        }
        if facing == 0 {
            (x * ts, y * ts, (x + 1) * ts, y * ts)
        } else if facing == 1 {
            ((x + 1) * ts - 1, y * ts, (x + 1) * ts - 1, (y + 1) * ts)
        } else if facing == 2 {
            (x * ts, (y + 1) * ts - 1, (x + 1) * ts, (y + 1) * ts - 1)
        } else {
            (x * ts, y * ts, x * ts, (y + 1) * ts)
        }
    }

    /// Returns the position of a player placed at the centre of a tile chosen
    /// by two random numbers: `(r_x % tiles_x, r_y % tiles_y)`.
    pub fn random_pos(&self, r_x: usize, r_y: usize) -> (pos: (usize, usize))
        requires
            self.tiles_x > 0,
            self.tiles_y > 0,
            self.tile_size >= PLAYER_SIZE,
            (self.tiles_x - 1) * self.tile_size + (self.tile_size - PLAYER_SIZE) / 2 <= usize::MAX,
            (self.tiles_y - 1) * self.tile_size + (self.tile_size - PLAYER_SIZE) / 2 <= usize::MAX,
        ensures
            pos.0 == (r_x % self.tiles_x) * self.tile_size + (self.tile_size - PLAYER_SIZE) / 2,
            pos.1 == (r_y % self.tiles_y) * self.tile_size + (self.tile_size - PLAYER_SIZE) / 2,
    {
        let tile_x = r_x % self.tiles_x;
        let tile_y = r_y % self.tiles_y;
        proof {
            let ts = self.tile_size as int;
            assert(tile_x * ts <= (self.tiles_x - 1) * ts) by (nonlinear_arith)
                requires
                    tile_x <= self.tiles_x - 1,
                    ts >= 0,
            ;
            assert(tile_y * ts <= (self.tiles_y - 1) * ts) by (nonlinear_arith)
                requires
                    tile_y <= self.tiles_y - 1,
                    ts >= 0,
            ;
        }
        let x = tile_x * self.tile_size + (self.tile_size - PLAYER_SIZE) / 2;
        let y = tile_y * self.tile_size + (self.tile_size - PLAYER_SIZE) / 2;
        (x, y)
    }

    /// Replaces the walls of tile `(x, y)`; coordinates outside the grid
    /// leave the map unchanged.
    pub fn set_tile(&mut self, x: usize, y: usize, walls: Direction)
        requires
            old(self).well_formed(),
        ensures
            final(self).same_shape(old(self)),
            final(self).well_formed(),
            old(self).in_grid(x as int, y as int) ==> final(self).tiles@ == old(self).tiles@.update(
                old(self).index_of(x as int, y as int),
                walls,
            ),
            !old(self).in_grid(x as int, y as int) ==> final(self).tiles@ == old(self).tiles@,
    {
        if x < self.tiles_x && y < self.tiles_y {
            let len = self.tiles.len();
            proof {
                lemma_grid_index(x as int, y as int, self.tiles_x as int, self.tiles_y as int);
            }
            let index = y * self.tiles_x + x;
            self.tiles.set(index, walls);
        }
    }

    /// Replaces the walls of every tile: entry `i` of `bitmap` gives the
    /// walls (up, right, down, left) of the `i`-th tile in row order.
    pub fn set_walls_bitmap(&mut self, bitmap: &[[bool; 4]])
        requires
            old(self).well_formed(),
            bitmap@.len() == old(self).tiles_x * old(self).tiles_y,
        ensures
            final(self).same_shape(old(self)),
            final(self).well_formed(),
            forall|i: int|
                0 <= i < final(self).tiles@.len() ==> #[trigger] final(self).tiles@[i] == walls_of(
                    bitmap@[i],
                ),
    {
        let len = self.tiles.len();
        assert(self.tiles_y * self.tiles_x == self.tiles_x * self.tiles_y) by (nonlinear_arith);
        let n = self.tiles_y * self.tiles_x;
        let mut i: usize = 0;
        while i < n
            invariant
                0 <= i <= n,
                n == self.tiles@.len(),
                n == bitmap@.len(),
                self.same_shape(old(self)),
                forall|j: int| 0 <= j < i ==> #[trigger] self.tiles@[j] == walls_of(bitmap@[j]),
            decreases n - i,
        {
            let b = bitmap[i];
            let walls = Direction { up: b[0], right: b[1], down: b[2], left: b[3] };
            self.tiles.set(i, walls);
            i = i + 1;
        }
    }

    /// The walls of tile `(x, y)` once the border of the map is closed: a
    /// tile on the border gets the wall on each of its outer sides.
    pub open spec fn with_outer_walls(&self, x: int, y: int) -> Direction {
        let t = self.tile(x, y);
        Direction {
            up: t.up || y == 0,
            right: t.right || x == self.tiles_x - 1,
            down: t.down || y == self.tiles_y - 1,
            left: t.left || x == 0,
        }
    }

    /// Closes the border of the map: sets the top wall of the top row, the
    /// bottom wall of the bottom row, the left wall of the left column and
    /// the right wall of the right column.
    pub fn set_outer_walls(&mut self)
        requires
            old(self).well_formed(),
            (old(self).tiles_x > 0) == (old(self).tiles_y > 0),
        ensures
            final(self).same_shape(old(self)),
            final(self).well_formed(),
            forall|x: int, y: int|
                old(self).in_grid(x, y) ==> #[trigger] final(self).tile(x, y)
                    == old(self).with_outer_walls(x, y),
    {
        let ghost start = *self;
        let tx = self.tiles_x;
        let ty = self.tiles_y;
        let len = self.tiles.len();
        let mut x: usize = 0;
        while x < tx
            invariant
                0 <= x <= tx,
                tx == self.tiles_x,
                ty == self.tiles_y,
                tx > 0 ==> ty > 0,
                len == self.tiles@.len(),
                self.same_shape(&start),
                self.well_formed(),
                forall|cx: int, cy: int|
                    start.in_grid(cx, cy) ==> #[trigger] self.tile(cx, cy) == (Direction {
                        up: start.tile(cx, cy).up || (cy == 0 && cx < x),
                        right: start.tile(cx, cy).right,
                        down: start.tile(cx, cy).down || (cy == ty - 1 && cx < x),
                        left: start.tile(cx, cy).left,
                    }),
            decreases tx - x,
        {
            proof {
                lemma_grid_index(x as int, 0, tx as int, ty as int);
                lemma_grid_index(x as int, ty - 1, tx as int, ty as int);
            }
            let ghost before = self.tiles@;
            let ghost prev = *self;
            assert(0 * tx + x == x);
            let mut top = self.tiles[x];
            top.up = true;
            self.tiles.set(x, top);
            let ghost mid = self.tiles@;
            let bottom_index = (ty - 1) * tx + x;
            let mut bottom = self.tiles[bottom_index];
            bottom.down = true;
            self.tiles.set(bottom_index, bottom);
            proof {
                assert forall|cx: int, cy: int| start.in_grid(cx, cy) implies #[trigger] self.tile(
                    cx,
                    cy,
                ) == (Direction {
                    up: start.tile(cx, cy).up || (cy == 0 && cx < x + 1),
                    right: start.tile(cx, cy).right,
                    down: start.tile(cx, cy).down || (cy == ty - 1 && cx < x + 1),
                    left: start.tile(cx, cy).left,
                }) by {
                    lemma_grid_update(before, tx as int, ty as int, x as int, 0, top, cx, cy);
                    lemma_grid_update(mid, tx as int, ty as int, x as int, ty - 1, bottom, cx, cy);
                    lemma_grid_update(before, tx as int, ty as int, x as int, 0, top, x as int, ty - 1);
                    assert(prev.tile(cx, cy) == before[cy * tx + cx]);
                    assert(prev.tile(x as int, 0) == before[0 * tx + x]);
                    assert(prev.tile(x as int, ty - 1) == before[(ty - 1) * tx + x]);
                }
            }
            x = x + 1;
        }
        let mut y: usize = 0;
        while y < ty
            invariant
                0 <= y <= ty,
                tx == self.tiles_x,
                ty == self.tiles_y,
                ty > 0 ==> tx > 0,
                len == self.tiles@.len(),
                self.same_shape(&start),
                self.well_formed(),
                forall|cx: int, cy: int|
                    start.in_grid(cx, cy) ==> #[trigger] self.tile(cx, cy) == (Direction {
                        up: start.tile(cx, cy).up || cy == 0,
                        right: start.tile(cx, cy).right || (cx == tx - 1 && cy < y),
                        down: start.tile(cx, cy).down || cy == ty - 1,
                        left: start.tile(cx, cy).left || (cx == 0 && cy < y),
                    }),
            decreases ty - y,
        {
            proof {
                lemma_grid_index(0, y as int, tx as int, ty as int);
                lemma_grid_index(tx - 1, y as int, tx as int, ty as int);
            }
            let ghost before = self.tiles@;
            let ghost prev = *self;
            assert(y * tx + 0 == y * tx);
            let left_index = y * tx;
            let mut l = self.tiles[left_index];
            l.left = true;
            self.tiles.set(left_index, l);
            let ghost mid = self.tiles@;
            let right_index = y * tx + (tx - 1);
            let mut r = self.tiles[right_index];
            r.right = true;
            self.tiles.set(right_index, r);
            proof {
                assert forall|cx: int, cy: int| start.in_grid(cx, cy) implies #[trigger] self.tile(
                    cx,
                    cy,
                ) == (Direction {
                    up: start.tile(cx, cy).up || cy == 0,
                    right: start.tile(cx, cy).right || (cx == tx - 1 && cy < y + 1),
                    down: start.tile(cx, cy).down || cy == ty - 1,
                    left: start.tile(cx, cy).left || (cx == 0 && cy < y + 1),
                }) by {
                    lemma_grid_update(before, tx as int, ty as int, 0, y as int, l, cx, cy);
                    lemma_grid_update(mid, tx as int, ty as int, tx - 1, y as int, r, cx, cy);
                    lemma_grid_update(before, tx as int, ty as int, 0, y as int, l, tx - 1, y as int);
                    assert(prev.tile(cx, cy) == before[cy * tx + cx]);
                    assert(prev.tile(0, y as int) == before[y * tx + 0]);
                    assert(prev.tile(tx - 1, y as int) == before[y * tx + (tx - 1)]);
                }
            }
            y = y + 1;
        }
    }

    /// Marks and appends to `area` every tile that the search reaches from
    /// tile `(x, y)` without passing a marked tile, in depth-first order
    /// (up, right, down, left).
    #[verifier::rlimit(50)]
    #[verifier::spinoff_prover]
    fn flood_fill(&self, x: usize, y: usize, visited: &mut Vec<bool>, area: &mut Vec<(usize, usize)>)
        requires
            self.well_formed(),
            self.in_grid(x as int, y as int),
            old(visited)@.len() == self.tiles@.len(),
        ensures
            grew(*self, old(visited)@, old(area)@, final(visited)@, final(area)@),
            closed_range(
                *self,
                final(visited)@,
                final(area)@,
                old(area)@.len() as int,
                final(area)@.len() as int,
            ),
            reach_range(
                *self,
                final(area)@,
                old(area)@.len() as int,
                final(area)@.len() as int,
                x as int,
                y as int,
            ),
            final(visited)@[self.index_of(x as int, y as int)],
            !old(visited)@[self.index_of(x as int, y as int)] ==> final(area)@.len() > old(area)@.len()
                && coord(final(area)@[old(area)@.len() as int]) == (x as int, y as int),
            forall|d: nat|
                d >= unvisited(old(visited)@) ==> #[trigger] fill(
                    self.tiles_x as int,
                    self.tiles_y as int,
                    self.tiles@,
                    x as int,
                    y as int,
                    old(visited)@,
                    old(area)@,
                    d,
                ) == (final(visited)@, final(area)@),
        decreases unvisited(old(visited)@),
    {
        let ghost m = *self;
        let ghost v0 = visited@;
        let ghost a0 = area@;
        let len = self.tiles.len();
        let tx = self.tiles_x;
        let ty = self.tiles_y;
        proof {
            lemma_grid_index(x as int, y as int, tx as int, ty as int);
        }
        let index = y * tx + x;
        if visited[index] {
            proof {
                lemma_grew_refl(m, v0, a0);
            }
            return ;
        }
        visited.set(index, true);
        area.push((x, y));
        proof {
            lemma_unvisited_monotone(v0, visited@, index as int);
            assert(area@.subrange(0, a0.len() as int) =~= a0);
            assert forall|i: int| 0 <= i < v0.len() && #[trigger] visited@[i] && !v0[i] implies exists|k: int|
                a0.len() <= k < area@.len() && m.index_of(area@[k].0 as int, area@[k].1 as int) == i by {
                assert(m.index_of(area@[a0.len() as int].0 as int, area@[a0.len() as int].1 as int) == i);
            }
            assert(grew(m, v0, a0, visited@, area@));
            lemma_reachable_refl(m, x as int, y as int);
            assert(reach_range(m, area@, a0.len() as int, area@.len() as int, x as int, y as int));
        }
        let ghost v1 = visited@;
        let ghost a1 = area@;
        let tile = self.tiles[index];
        proof {
            if y > 0 {
                lemma_grid_index(x as int, y - 1, tx as int, ty as int);
            }
            if x + 1 < tx {
                lemma_grid_index(x + 1, y as int, tx as int, ty as int);
            }
            if y + 1 < ty {
                lemma_grid_index(x as int, y + 1, tx as int, ty as int);
                assert((y + 1) * tx == y * tx + tx) by (nonlinear_arith);
            }
            if x > 0 {
                lemma_grid_index(x - 1, y as int, tx as int, ty as int);
            }
        }
        // up
        if y > 0 && !tile.up {
            let ghost vi = visited@;
            let ghost ai = area@;
            proof {
                lemma_unvisited_monotone(v0, vi, index as int);
            }
            self.flood_fill(x, y - 1, visited, area);
            proof {
                lemma_after_subsearch(m, v0, a0, vi, ai, visited@, area@, x as int, y as int, x as int, y - 1);
            }
        }
        assert(m.step(x as int, y as int, x as int, y - 1) ==> visited@[m.index_of(x as int, y - 1)]);
        let ghost after_up = visited@;
        let ghost area_up = area@;
        // right
        if x + 1 < tx && !tile.right && !self.tiles[index + 1].left {
            let ghost vi = visited@;
            let ghost ai = area@;
            proof {
                lemma_unvisited_monotone(v0, vi, index as int);
            }
            self.flood_fill(x + 1, y, visited, area);
            proof {
                lemma_after_subsearch(m, v0, a0, vi, ai, visited@, area@, x as int, y as int, x + 1, y as int);
            }
        }
        assert(m.step(x as int, y as int, x as int, y - 1) ==> visited@[m.index_of(x as int, y - 1)]) by {
            if m.step(x as int, y as int, x as int, y - 1) {
                assert(after_up[m.index_of(x as int, y - 1)]);
            }
        }
        assert(m.step(x as int, y as int, x + 1, y as int) ==> visited@[m.index_of(x + 1, y as int)]);
        let ghost after_right = visited@;
        let ghost area_right = area@;
        // down
        if y + 1 < ty && !tile.down && !self.tiles[index + tx].up {
            let ghost vi = visited@;
            let ghost ai = area@;
            proof {
                lemma_unvisited_monotone(v0, vi, index as int);
            }
            self.flood_fill(x, y + 1, visited, area);
            proof {
                lemma_after_subsearch(m, v0, a0, vi, ai, visited@, area@, x as int, y as int, x as int, y + 1);
            }
        }
        assert(m.step(x as int, y as int, x as int, y + 1) ==> visited@[m.index_of(x as int, y + 1)]);
        assert forall|i: int| 0 <= i < after_right.len() && after_right[i] implies visited@[i] by {}
        let ghost after_down = visited@;
        let ghost area_down = area@;
        // left
        if x > 0 && !tile.left {
            let ghost vi = visited@;
            let ghost ai = area@;
            proof {
                lemma_unvisited_monotone(v0, vi, index as int);
            }
            self.flood_fill(x - 1, y, visited, area);
            proof {
                lemma_after_subsearch(m, v0, a0, vi, ai, visited@, area@, x as int, y as int, x - 1, y as int);
            }
        }
        proof {
            assert forall|i: int| 0 <= i < after_down.len() && after_down[i] implies visited@[i] by {}
            assert(m.step(x as int, y as int, x as int, y - 1) ==> visited@[m.index_of(x as int, y - 1)]);
            assert(m.step(x as int, y as int, x + 1, y as int) ==> visited@[m.index_of(x + 1, y as int)]);
            assert(m.step(x as int, y as int, x as int, y + 1) ==> visited@[m.index_of(x as int, y + 1)]);
            assert(m.step(x as int, y as int, x - 1, y as int) ==> visited@[m.index_of(x - 1, y as int)]);
            let a = area@;
            let v = visited@;
            assert forall|d: nat| d >= unvisited(v0) implies #[trigger] fill(
                tx as int,
                ty as int,
                m.tiles@,
                x as int,
                y as int,
                v0,
                a0,
                d,
            ) == (v, a) by {
                let e = (d - 1) as nat;
                assert(unvisited(v1) < unvisited(v0)) by {
                    lemma_unvisited_monotone(v0, v1, index as int);
                }
                assert(v1 == v0.update(index as int, true));
                assert(a1 == a0.push((x, y)));
                let ti = tx as int;
                let tj = ty as int;
                let s = m.tiles@;
                let xi = x as int;
                let yi = y as int;
                let r1 = if opens(ti, tj, s, xi, yi, 0) { fill(ti, tj, s, xi, yi - 1, v1, a1, e) } else { (v1, a1) };
                assert(r1 == (after_up, area_up));
                let r2 = if opens(ti, tj, s, xi, yi, 1) { fill(ti, tj, s, xi + 1, yi, r1.0, r1.1, e) } else { r1 };
                assert(r2 == (after_right, area_right));
                let r3 = if opens(ti, tj, s, xi, yi, 2) { fill(ti, tj, s, xi, yi + 1, r2.0, r2.1, e) } else { r2 };
                assert(r3 == (after_down, area_down));
                let r4 = if opens(ti, tj, s, xi, yi, 3) { fill(ti, tj, s, xi - 1, yi, r3.0, r3.1, e) } else { r3 };
                assert(r4 == (v, a));
                assert(!v0[yi * ti + xi]);
            }
            assert forall|k: int, nx: int, ny: int|
                a0.len() <= k < a.len() && #[trigger] m.step(a[k].0 as int, a[k].1 as int, nx, ny) implies v[m.index_of(
                nx,
                ny,
            )] by {
                if k == a0.len() {
                    assert(coord(a[k]) == (x as int, y as int));
                }
            }
        }
    }

    /// Splits the map into areas: scanning the tiles row by row, each tile
    /// that no earlier area holds starts a new area, filled by the search of
    /// `flood_fill`. Every tile of the grid ends up in exactly one area.
    pub fn find_distinct_areas(&self) -> (areas: Vec<Vec<(usize, usize)>>)
        requires
            self.well_formed(),
        ensures
            areas_valid(*self, areas@),
            forall|x: int, y: int|
                self.in_grid(x, y) ==> #[trigger] listed_before(
                    *self,
                    areas@,
                    areas@.len() as int,
                    self.index_of(x, y),
                ),
            views(areas@) == distinct_areas(self.tiles_x as int, self.tiles_y as int, self.tiles@),
    {
        let ghost m = *self;
        let tx = self.tiles_x;
        let ty = self.tiles_y;
        let n = self.tiles.len();
        let mut visited = vec![false; n];
        let mut areas: Vec<Vec<(usize, usize)>> = Vec::new();
        let ghost target = distinct_areas(tx as int, ty as int, m.tiles@);
        proof {
            assert(visited@ =~= Seq::new(m.tiles@.len(), |i: int| false));
            assert(views(areas@) =~= Seq::empty());
            assert(tx * ty == ty * tx) by (nonlinear_arith);
            assert forall|i: int| 0 <= i < n implies visited@[i] == #[trigger] listed_before(
                m,
                areas@,
                areas@.len() as int,
                i,
            ) by {
                assert(!visited@[i]);
            }
        }
        let mut y: usize = 0;
        while y < ty
            invariant
                0 <= y <= ty,
                tx == self.tiles_x,
                ty == self.tiles_y,
                n == self.tiles@.len(),
                m == *self,
                m.well_formed(),
                visited@.len() == n,
                areas_valid(m, areas@),
                forall|i: int|
                    0 <= i < n ==> visited@[i] == #[trigger] listed_before(m, areas@, areas@.len() as int, i),
                forall|i: int| 0 <= i < y * tx ==> #[trigger] visited@[i],
                scan(tx as int, ty as int, m.tiles@, 0, y as int, visited@, views(areas@)) == target,
            decreases ty - y,
        {
            let mut x: usize = 0;
            while x < tx
                invariant
                    0 <= x <= tx,
                    0 <= y < ty,
                    tx == self.tiles_x,
                    ty == self.tiles_y,
                    n == self.tiles@.len(),
                    m == *self,
                    m.well_formed(),
                    visited@.len() == n,
                    areas_valid(m, areas@),
                    forall|i: int|
                        0 <= i < n ==> visited@[i] == #[trigger] listed_before(
                            m,
                            areas@,
                            areas@.len() as int,
                            i,
                        ),
                    forall|i: int| 0 <= i < y * tx + x ==> #[trigger] visited@[i],
                    scan(tx as int, ty as int, m.tiles@, x as int, y as int, visited@, views(areas@)) == target,
                decreases tx - x,
            {
                proof {
                    lemma_grid_index(x as int, y as int, tx as int, ty as int);
                }
                let index = y * tx + x;
                if !visited[index] {
                    let ghost v = visited@;
                    let ghost before = areas@;
                    let mut area: Vec<(usize, usize)> = Vec::new();
                    self.flood_fill(x, y, &mut visited, &mut area);
                    proof {
                        lemma_add_area(m, v, areas@, visited@, area, x as int, y as int);
                        let r = fill(tx as int, ty as int, m.tiles@, x as int, y as int, v, Seq::empty(), unvisited(v));
                        assert(r == (visited@, area@));
                    }
                    areas.push(area);
                    proof {
                        assert(views(areas@) =~= views(before).push(area@));
                    }
                }
                x = x + 1;
            }
            proof {
                assert(y * tx + tx == (y + 1) * tx) by (nonlinear_arith);
                assert(scan(tx as int, ty as int, m.tiles@, x as int, y as int, visited@, views(areas@)) == scan(
                    tx as int,
                    ty as int,
                    m.tiles@,
                    0,
                    y + 1,
                    visited@,
                    views(areas@),
                ));
            }
            y = y + 1;
        }
        proof {
            assert forall|cx: int, cy: int| m.in_grid(cx, cy) implies #[trigger] listed_before(
                m,
                areas@,
                areas@.len() as int,
                m.index_of(cx, cy),
            ) by {
                lemma_grid_index(cx, cy, tx as int, ty as int);
                assert(visited@[m.index_of(cx, cy)]);
            }
        }
        areas
    }

    /// Removes the top wall of tile `(x, y)` when the tile above lies outside
    /// `area`; returns whether it did.
    fn remove_up_wall(&mut self, area: &Vec<(usize, usize)>, x: usize, y: usize) -> (found: bool)
        requires
            old(self).well_formed(),
            old(self).in_grid(x as int, y as int),
        ensures
            final(self).same_shape(old(self)),
            final(self).well_formed(),
            removed_inner_walls(*old(self), final(self).tiles@),
            found == (y > 0 && old(self).tile(x as int, y as int).up && !in_area(area@, x as int, y - 1)),
            found ==> final(self).tiles@ == without_wall(old(self).tiles_x as int, old(self).tiles@, x as int, y as int, 0),
            found ==> !final(self).tile(x as int, y as int).up,
            found ==> wall_count(final(self).tiles@) < wall_count(old(self).tiles@),
            !found ==> final(self).tiles@ == old(self).tiles@,
    {
        let ghost start = *self;
        let len = self.tiles.len();
        proof {
            lemma_grid_index(x as int, y as int, self.tiles_x as int, self.tiles_y as int);
            lemma_removed_refl(start);
        }
        let index = y * self.tiles_x + x;
        if y > 0 && self.tiles[index].up && !area_contains(area, x, y - 1) {
            let mut t = self.tiles[index];
            t.up = false;
            proof {
                lemma_remove_inner(start, self.tiles@, x as int, y as int, t);
            }
            self.tiles.set(index, t);
            return true;
        }
        false
    }

    /// Removes the left wall of tile `(x, y)` when the tile to its left lies
    /// outside `area`; returns whether it did.
    fn remove_left_wall(&mut self, area: &Vec<(usize, usize)>, x: usize, y: usize) -> (found: bool)
        requires
            old(self).well_formed(),
            old(self).in_grid(x as int, y as int),
        ensures
            final(self).same_shape(old(self)),
            final(self).well_formed(),
            removed_inner_walls(*old(self), final(self).tiles@),
            found == (x > 0 && old(self).tile(x as int, y as int).left && !in_area(area@, x - 1, y as int)),
            found ==> final(self).tiles@ == without_wall(old(self).tiles_x as int, old(self).tiles@, x as int, y as int, 3),
            found ==> !final(self).tile(x as int, y as int).left,
            found ==> wall_count(final(self).tiles@) < wall_count(old(self).tiles@),
            !found ==> final(self).tiles@ == old(self).tiles@,
    {
        let ghost start = *self;
        let len = self.tiles.len();
        proof {
            lemma_grid_index(x as int, y as int, self.tiles_x as int, self.tiles_y as int);
            lemma_removed_refl(start);
        }
        let index = y * self.tiles_x + x;
        if x > 0 && self.tiles[index].left && !area_contains(area, x - 1, y) {
            let mut t = self.tiles[index];
            t.left = false;
            proof {
                lemma_remove_inner(start, self.tiles@, x as int, y as int, t);
            }
            self.tiles.set(index, t);
            return true;
        }
        false
    }

    /// Removes the wall between tile `(x, y)` and its right neighbour (the
    /// tile's right wall and the neighbour's left wall) when the neighbour
    /// lies outside `area`; returns whether it did.
    fn remove_right_wall(&mut self, area: &Vec<(usize, usize)>, x: usize, y: usize) -> (found: bool)
        requires
            old(self).well_formed(),
            old(self).in_grid(x as int, y as int),
        ensures
            final(self).same_shape(old(self)),
            final(self).well_formed(),
            removed_inner_walls(*old(self), final(self).tiles@),
            found == (x + 1 < old(self).tiles_x && (old(self).tile(x as int, y as int).right || old(
                self,
            ).tile(x + 1, y as int).left) && !in_area(area@, x + 1, y as int)),
            found ==> final(self).tiles@ == without_wall(old(self).tiles_x as int, old(self).tiles@, x as int, y as int, 1),
            found ==> !final(self).tile(x as int, y as int).right,
            found ==> wall_count(final(self).tiles@) < wall_count(old(self).tiles@),
            !found ==> final(self).tiles@ == old(self).tiles@,
    {
        let ghost start = *self;
        let tx = self.tiles_x;
        let len = self.tiles.len();
        proof {
            lemma_grid_index(x as int, y as int, tx as int, self.tiles_y as int);
            if x + 1 < tx {
                lemma_grid_index(x + 1, y as int, tx as int, self.tiles_y as int);
            }
            lemma_removed_refl(start);
        }
        let index = y * tx + x;
        if x + 1 < tx && (self.tiles[index].right || self.tiles[index + 1].left) && !area_contains(
            area,
            x + 1,
            y,
        ) {
            let ghost s0 = self.tiles@;
            let mut t = self.tiles[index];
            t.right = false;
            proof {
                lemma_remove_inner(start, self.tiles@, x as int, y as int, t);
            }
            self.tiles.set(index, t);
            let mut r = self.tiles[index + 1];
            r.left = false;
            proof {
                assert(s0.update(index as int, t)[index + 1] == s0[index + 1]);
                lemma_remove_inner(start, self.tiles@, x + 1, y as int, r);
            }
            self.tiles.set(index + 1, r);
            assert(self.tiles@ =~= without_wall(tx as int, s0, x as int, y as int, 1));
            return true;
        }
        false
    }

    /// Removes the wall between tile `(x, y)` and its lower neighbour (the
    /// tile's bottom wall and the neighbour's top wall) when the neighbour
    /// lies outside `area`; returns whether it did.
    fn remove_down_wall(&mut self, area: &Vec<(usize, usize)>, x: usize, y: usize) -> (found: bool)
        requires
            old(self).well_formed(),
            old(self).in_grid(x as int, y as int),
        ensures
            final(self).same_shape(old(self)),
            final(self).well_formed(),
            removed_inner_walls(*old(self), final(self).tiles@),
            found == (y + 1 < old(self).tiles_y && (old(self).tile(x as int, y as int).down || old(
                self,
            ).tile(x as int, y + 1).up) && !in_area(area@, x as int, y + 1)),
            found ==> final(self).tiles@ == without_wall(old(self).tiles_x as int, old(self).tiles@, x as int, y as int, 2),
            found ==> !final(self).tile(x as int, y as int).down,
            found ==> wall_count(final(self).tiles@) < wall_count(old(self).tiles@),
            !found ==> final(self).tiles@ == old(self).tiles@,
    {
        let ghost start = *self;
        let tx = self.tiles_x;
        let ty = self.tiles_y;
        let len = self.tiles.len();
        proof {
            lemma_grid_index(x as int, y as int, tx as int, ty as int);
            if y + 1 < ty {
                lemma_grid_index(x as int, y + 1, tx as int, ty as int);
                assert((y + 1) * tx == y * tx + tx) by (nonlinear_arith);
            }
            lemma_removed_refl(start);
        }
        let index = y * tx + x;
        if y + 1 < ty && (self.tiles[index].down || self.tiles[index + tx].up) && !area_contains(
            area,
            x,
            y + 1,
        ) {
            let ghost s0 = self.tiles@;
            let mut t = self.tiles[index];
            t.down = false;
            proof {
                lemma_remove_inner(start, self.tiles@, x as int, y as int, t);
            }
            self.tiles.set(index, t);
            let mut d = self.tiles[index + tx];
            d.up = false;
            proof {
                assert(s0.update(index as int, t)[index + tx] == s0[index + tx]);
                lemma_remove_inner(start, self.tiles@, x as int, y + 1, d);
            }
            self.tiles.set(index + tx, d);
            assert(self.tiles@ =~= without_wall(tx as int, s0, x as int, y as int, 2));
            return true;
        }
        false
    }

    /// Removes, at tile `(x, y)` of `area`, the first wall (up, right, down,
    /// left) towards a neighbour outside the area and returns its side, or
    /// returns 4 and changes nothing when there is none (see `exit_side`).
    fn remove_wall_at(&mut self, area: &Vec<(usize, usize)>, x: usize, y: usize) -> (side: usize)
        requires
            old(self).well_formed(),
            old(self).in_grid(x as int, y as int),
        ensures
            final(self).same_shape(old(self)),
            final(self).well_formed(),
            removed_inner_walls(*old(self), final(self).tiles@),
            side == exit_side(
                old(self).tiles_x as int,
                old(self).tiles_y as int,
                old(self).tiles@,
                area@,
                x as int,
                y as int,
            ),
            (side < 4) == removable(*old(self), area@, x as int, y as int),
            side < 4 ==> final(self).tiles@ == without_wall(
                old(self).tiles_x as int,
                old(self).tiles@,
                x as int,
                y as int,
                side as int,
            ),
            side < 4 ==> !has_wall(final(self).tile(x as int, y as int), side as int),
            side < 4 ==> wall_count(final(self).tiles@) < wall_count(old(self).tiles@),
            side == 4 ==> final(self).tiles@ == old(self).tiles@,
    {
        let ghost start = *self;
        proof {
            lemma_removed_refl(start);
            if y + 1 < start.tiles_y {
                assert((y + 1) * start.tiles_x == y * start.tiles_x + start.tiles_x) by (nonlinear_arith);
            }
        }
        if self.remove_up_wall(area, x, y) {
            return 0;
        }
        let ghost m1 = *self;
        if self.remove_right_wall(area, x, y) {
            proof {
                lemma_removed_trans(start, m1, self.tiles@);
            }
            return 1;
        }
        let ghost m2 = *self;
        if self.remove_down_wall(area, x, y) {
            proof {
                lemma_removed_trans(start, m2, self.tiles@);
            }
            return 2;
        }
        let ghost m3 = *self;
        let found = self.remove_left_wall(area, x, y);
        proof {
            lemma_removed_trans(start, m3, self.tiles@);
        }
        if found {
            3
        } else {
            4
        }
    }

    /// For each of the first `count` areas, in order, removes the first
    /// wall found between a tile of the area and a neighbour outside it:
    /// tiles are tried in the order of the area, and the sides of a tile in
    /// the order up, right (with the neighbour's left wall), down (with the
    /// neighbour's top wall), left. Returns the removed walls as (column,
    /// row, side) in order; all of it as `join_from` says.
    fn join_areas(&mut self, areas: &Vec<Vec<(usize, usize)>>, count: usize) -> (removed: Vec<(usize, usize, usize)>)
        requires
            old(self).well_formed(),
            count <= areas@.len(),
            forall|a: int, k: int|
                #[trigger] holds(areas@, a, k) ==> old(self).in_grid(areas@[a]@[k].0 as int, areas@[a]@[k].1 as int),
        ensures
            final(self).same_shape(old(self)),
            final(self).well_formed(),
            removed_inner_walls(*old(self), final(self).tiles@),
            (final(self).tiles@, removed@) == join_from(
                old(self).tiles_x as int,
                old(self).tiles_y as int,
                old(self).tiles@,
                views(areas@),
                0,
                count as int,
                Seq::empty(),
            ),
            removed@.len() <= count,
            wall_count(final(self).tiles@) + removed@.len() <= wall_count(old(self).tiles@),
            removed@.len() == 0 ==> final(self).tiles@ == old(self).tiles@,
            count >= 1 && areas_valid(*old(self), areas@) && areas@.len() >= 2 ==> removed@.len() >= 1,
            forall|k: int|
                0 <= k < removed@.len() ==> {
                    let r = #[trigger] removed@[k];
                    &&& final(self).in_grid(r.0 as int, r.1 as int)
                    &&& r.2 < 4
                    &&& !has_wall(final(self).tile(r.0 as int, r.1 as int), r.2 as int)
                },
    {
        let ghost start = *self;
        let ghost tx = start.tiles_x as int;
        let ghost ty = start.tiles_y as int;
        let ghost ar = views(areas@);
        let ghost target = join_from(tx, ty, start.tiles@, ar, 0, count as int, Seq::empty());
        let ghost progress = count >= 1 && areas_valid(start, areas@) && areas@.len() >= 2;
        proof {
            lemma_removed_refl(start);
        }
        let mut removed: Vec<(usize, usize, usize)> = Vec::new();
        let mut a: usize = 0;
        while a < count
            invariant
                0 <= a <= count,
                count <= areas@.len(),
                ar == views(areas@),
                tx == start.tiles_x,
                ty == start.tiles_y,
                join_from(tx, ty, self.tiles@, ar, a as int, count as int, removed@) == target,
                progress == (count >= 1 && areas_valid(start, areas@) && areas@.len() >= 2),
                self.same_shape(&start),
                self.well_formed(),
                start.well_formed(),
                removed_inner_walls(start, self.tiles@),
                removed@.len() <= a,
                wall_count(self.tiles@) + removed@.len() <= wall_count(start.tiles@),
                removed@.len() == 0 ==> self.tiles@ == start.tiles@,
                a >= 1 && progress ==> removed@.len() >= 1,
                forall|a2: int, k: int|
                    #[trigger] holds(areas@, a2, k) ==> start.in_grid(areas@[a2]@[k].0 as int, areas@[a2]@[k].1 as int),
                forall|k: int|
                    0 <= k < removed@.len() ==> {
                        let r = #[trigger] removed@[k];
                        &&& self.in_grid(r.0 as int, r.1 as int)
                        &&& r.2 < 4
                        &&& !has_wall(self.tile(r.0 as int, r.1 as int), r.2 as int)
                    },
            decreases count - a,
        {
            let area = &areas[a];
            let ghost sa = self.tiles@;
            let ghost r0 = removed@;
            proof {
                assert(ar[a as int] == area@);
            }
            let mut k: usize = 0;
            let mut done = false;
            while k < area.len() && !done
                invariant
                    0 <= k <= area@.len(),
                    0 <= a < count,
                    count <= areas@.len(),
                    area@ == areas@[a as int]@,
                    tx == start.tiles_x,
                    ty == start.tiles_y,
                    r0.len() <= a,
                    a >= 1 && progress ==> r0.len() >= 1,
                    a == 0 ==> sa == start.tiles@,
                    !done ==> self.tiles@ == sa && removed@ == r0 && area_exit(tx, ty, sa, area@, k as int)
                        == area_exit(tx, ty, sa, area@, 0),
                    done ==> removed@.len() == r0.len() + 1 && removed@ == r0.push(removed@.last())
                        && area_exit(tx, ty, sa, area@, 0) == Some(removed@.last()) && self.tiles@ == without_wall(
                        tx,
                        sa,
                        removed@.last().0 as int,
                        removed@.last().1 as int,
                        removed@.last().2 as int,
                    ),
                    self.same_shape(&start),
                    self.well_formed(),
                    start.well_formed(),
                    removed_inner_walls(start, self.tiles@),
                    wall_count(self.tiles@) + removed@.len() <= wall_count(start.tiles@),
                    a == 0 && !done ==> forall|j: int|
                        0 <= j < k ==> !removable(start, area@, area@[j].0 as int, area@[j].1 as int),
                    forall|a2: int, k2: int|
                        #[trigger] holds(areas@, a2, k2) ==> start.in_grid(
                            areas@[a2]@[k2].0 as int,
                            areas@[a2]@[k2].1 as int,
                        ),
                    forall|j: int|
                        0 <= j < removed@.len() ==> {
                            let r = #[trigger] removed@[j];
                            &&& self.in_grid(r.0 as int, r.1 as int)
                            &&& r.2 < 4
                            &&& !has_wall(self.tile(r.0 as int, r.1 as int), r.2 as int)
                        },
                decreases area@.len() - k + (if done { 0int } else { 1int }),
            {
                let (x, y) = area[k];
                assert(holds(areas@, a as int, k as int));
                let ghost before = *self;
                let side = self.remove_wall_at(area, x, y);
                proof {
                    lemma_removed_trans(start, before, self.tiles@);
                }
                if side < 4 {
                    proof {
                        lemma_grid_index(x as int, y as int, self.tiles_x as int, self.tiles_y as int);
                        assert forall|j: int| 0 <= j < removed@.len() implies {
                            let r = #[trigger] removed@[j];
                            &&& self.in_grid(r.0 as int, r.1 as int)
                            &&& r.2 < 4
                            &&& !has_wall(self.tile(r.0 as int, r.1 as int), r.2 as int)
                        } by {
                            let r = removed@[j];
                            lemma_removed_keeps_gone(before, self.tiles@, r.0 as int, r.1 as int, r.2 as int);
                        }
                    }
                    removed.push((x, y, side));
                    done = true;
                } else {
                    proof {
                        if a == 0 {
                            assert(!removable(before, area@, x as int, y as int));
                            assert(!removable(start, area@, x as int, y as int));
                        }
                    }
                }
                k = k + 1;
            }
            proof {
                if a == 0 && progress && !done {
                    let j = lemma_first_area_has_exit(start, areas@);
                    assert(!removable(start, area@, area@[j].0 as int, area@[j].1 as int));
                }
                if !done {
                    assert(area_exit(tx, ty, sa, area@, k as int) == None::<(usize, usize, usize)>);
                }
            }
            a = a + 1;
        }
        removed
    }

    /// For each area but the last, in order, removes the first wall found
    /// between a tile of the area and a neighbour outside it (see
    /// `join_areas`).
    fn remove_one_wall_per_area(&mut self, areas: &Vec<Vec<(usize, usize)>>)
        requires
            old(self).well_formed(),
            areas@.len() >= 1,
            forall|a: int, k: int|
                #[trigger] holds(areas@, a, k) ==> old(self).in_grid(
                    areas@[a]@[k].0 as int,
                    areas@[a]@[k].1 as int,
                ),
        ensures
            final(self).same_shape(old(self)),
            final(self).well_formed(),
            removed_inner_walls(*old(self), final(self).tiles@),
            final(self).tiles@ == join_from(
                old(self).tiles_x as int,
                old(self).tiles_y as int,
                old(self).tiles@,
                views(areas@),
                0,
                areas@.len() - 1,
                Seq::empty(),
            ).0,
            wall_count(final(self).tiles@) <= wall_count(old(self).tiles@),
            areas_valid(*old(self), areas@) && areas@.len() >= 2 ==> wall_count(final(self).tiles@)
                < wall_count(old(self).tiles@),
    {
        let count = areas.len() - 1;
        let _removed = self.join_areas(areas, count);
    }

    /// One round of connecting areas for display: for each area in order,
    /// removes the first wall found between a tile of the area and a
    /// neighbour outside it, as `remove_one_wall_per_area` does but for the
    /// last area too, and reports each removed wall as (column, row, side)
    /// with side 0 up, 1 right, 2 down, 3 left: `removed@[k]` is the wall
    /// of `area_exit` for the `k`-th area that has one, on the walls as the
    /// earlier areas left them, and the walls after the call are the old
    /// walls without exactly those (see `join_from`). When the areas are
    /// those of the map (see `areas_valid`) and there are two or more, at
    /// least one wall is removed.
    pub fn connect_areas_step(&mut self, areas: &Vec<Vec<(usize, usize)>>) -> (removed: Vec<(usize, usize, usize)>)
        requires
            old(self).well_formed(),
            forall|a: int, k: int|
                #[trigger] holds(areas@, a, k) ==> old(self).in_grid(areas@[a]@[k].0 as int, areas@[a]@[k].1 as int),
        ensures
            final(self).same_shape(old(self)),
            final(self).well_formed(),
            removed_inner_walls(*old(self), final(self).tiles@),
            (final(self).tiles@, removed@) == join_from(
                old(self).tiles_x as int,
                old(self).tiles_y as int,
                old(self).tiles@,
                views(areas@),
                0,
                areas@.len() as int,
                Seq::empty(),
            ),
            removed@.len() <= areas@.len(),
            wall_count(final(self).tiles@) + removed@.len() <= wall_count(old(self).tiles@),
            removed@.len() == 0 ==> final(self).tiles@ == old(self).tiles@,
            areas_valid(*old(self), areas@) && areas@.len() >= 2 ==> removed@.len() >= 1,
            forall|k: int|
                0 <= k < removed@.len() ==> {
                    let r = #[trigger] removed@[k];
                    &&& final(self).in_grid(r.0 as int, r.1 as int)
                    &&& r.2 < 4
                    &&& !has_wall(final(self).tile(r.0 as int, r.1 as int), r.2 as int)
                },
    {
        let count = areas.len();
        self.join_areas(areas, count)
    }

    /// Sets the top and left wall of every tile from the random draws
    /// (entry `i` of `draws` gives the top and the left wall of the `i`-th
    /// tile) and keeps the other walls.
    pub fn add_random_walls(&mut self, draws: &[(bool, bool)])
        requires
            draws@.len() == old(self).tiles@.len(),
        ensures
            final(self).same_shape(old(self)),
            forall|i: int|
                0 <= i < final(self).tiles@.len() ==> #[trigger] final(self).tiles@[i] == (Direction {
                    up: draws@[i].0,
                    right: old(self).tiles@[i].right,
                    down: old(self).tiles@[i].down,
                    left: draws@[i].1,
                }),
    {
        let ghost start = *self;
        let n = self.tiles.len();
        let mut i: usize = 0;
        while i < n
            invariant
                0 <= i <= n,
                n == self.tiles@.len(),
                n == draws@.len(),
                self.same_shape(&start),
                forall|j: int|
                    i <= j < n ==> #[trigger] self.tiles@[j] == start.tiles@[j],
                forall|j: int|
                    0 <= j < i ==> #[trigger] self.tiles@[j] == (Direction {
                        up: draws@[j].0,
                        right: start.tiles@[j].right,
                        down: start.tiles@[j].down,
                        left: draws@[j].1,
                    }),
            decreases n - i,
        {
            let mut tile = self.tiles[i];
            let d = draws[i];
            tile.up = d.0;
            tile.left = d.1;
            self.tiles.set(i, tile);
            i = i + 1;
        }
    }

    /// Generates the walls of the map from random draws: removes all walls,
    /// sets the top and left wall of each tile from `draws` (see
    /// `add_random_walls`), closes the border, and then, while the map
    /// falls into more than one area, removes one wall per area (see
    /// `remove_one_wall_per_area`). The walls that come out are exactly
    /// those of `generated_map`. Afterwards every tile can be reached from
    /// the top-left tile, the border is closed, and every wall was drawn or
    /// lies on the border.
    pub fn auto_set_walls(&mut self, draws: &[(bool, bool)])
        requires
            old(self).well_formed(),
            draws@.len() == old(self).tiles@.len(),
            (old(self).tiles_x > 0) == (old(self).tiles_y > 0),
        ensures
            final(self).same_shape(old(self)),
            final(self).well_formed(),
            walls_from_draws(*final(self), draws@),
            final(self).tiles@ == generated_map(old(self).tiles_x as int, old(self).tiles_y as int, draws@),
    {
        let ghost start = *self;
        let tx = self.tiles_x;
        let ty = self.tiles_y;
        self.clear_walls();
        self.add_random_walls(draws);
        self.set_outer_walls();
        let ghost generated = *self;
        proof {
            assert forall|x: int, y: int| start.in_grid(x, y) implies #[trigger] generated.tile(x, y)
                == generated_walls(draws@, start.index_of(x, y), x, y, tx as int, ty as int) by {
                lemma_grid_index(x, y, tx as int, ty as int);
            }
            lemma_removed_refl(generated);
            let t = tx as int;
            assert forall|i: int| 0 <= i < generated.tiles@.len() implies #[trigger] generated.tiles@[i]
                == drawn_walls(tx as int, ty as int, draws@)[i] by {
                if t == 0 {
                    assert(generated.tiles@.len() == 0) by (nonlinear_arith)
                        requires
                            generated.tiles@.len() == t * ty,
                            t == 0,
                    ;
                }
                vstd::arithmetic::div_mod::lemma_fundamental_div_mod(i, t);
                vstd::arithmetic::div_mod::lemma_mod_pos_bound(i, t);
                vstd::arithmetic::div_mod::lemma_div_pos_is_pos(i, t);
                let xx = i % t;
                let yy = i / t;
                assert(yy < ty && yy * t + xx == i) by (nonlinear_arith)
                    requires
                        i == t * yy + xx,
                        0 <= xx,
                        i < t * ty,
                        t > 0,
                ;
                assert(start.in_grid(xx, yy));
                assert(generated.tile(xx, yy) == generated.tiles@[i]);
            }
            assert(generated.tiles@ =~= drawn_walls(tx as int, ty as int, draws@));
        }
        let ghost gs = generated.tiles@;
        let ghost mut rounds: nat = 0;
        let mut areas = self.find_distinct_areas();
        while areas.len() > 1
            invariant
                self.same_shape(&generated),
                self.well_formed(),
                generated.well_formed(),
                removed_inner_walls(generated, self.tiles@),
                areas_valid(*self, areas@),
                forall|x: int, y: int|
                    self.in_grid(x, y) ==> #[trigger] listed_before(
                        *self,
                        areas@,
                        areas@.len() as int,
                        self.index_of(x, y),
                    ),
                tx == self.tiles_x,
                ty == self.tiles_y,
                gs == generated.tiles@,
                views(areas@) == distinct_areas(tx as int, ty as int, self.tiles@),
                wall_count(self.tiles@) + rounds <= wall_count(gs),
                join_rounds(tx as int, ty as int, gs, wall_count(gs)) == join_rounds(
                    tx as int,
                    ty as int,
                    self.tiles@,
                    (wall_count(gs) - rounds) as nat,
                ),
            decreases wall_count(self.tiles@),
        {
            let ghost before = *self;
            proof {
                assert(holds(areas@, 0, 0));
            }
            self.remove_one_wall_per_area(&areas);
            proof {
                lemma_removed_trans(generated, before, self.tiles@);
                let g = (wall_count(gs) - rounds) as nat;
                assert(views(areas@).len() == areas@.len());
                assert(join_rounds(tx as int, ty as int, before.tiles@, g) == join_rounds(
                    tx as int,
                    ty as int,
                    self.tiles@,
                    (g - 1) as nat,
                ));
                rounds = rounds + 1;
            }
            areas = self.find_distinct_areas();
        }
        proof {
            assert(views(areas@).len() == areas@.len());
            assert(join_rounds(tx as int, ty as int, self.tiles@, (wall_count(gs) - rounds) as nat) == self.tiles@);
            lemma_one_area_connected(*self, areas@);
            reveal(removed_inner_walls);
            assert forall|x: int, y: int| start.in_grid(x, y) implies {
                let d = #[trigger] self.tile(x, y);
                let g = generated_walls(draws@, start.index_of(x, y), x, y, tx as int, ty as int);
                &&& fewer_walls(d, g)
                &&& (y == 0 ==> d.up)
                &&& (x == tx - 1 ==> d.right)
                &&& (y == ty - 1 ==> d.down)
                &&& (x == 0 ==> d.left)
            } by {
                assert(generated.in_grid(x, y));
                let _ = self.tiles@[generated.index_of(x, y)];
                assert(generated.tile(x, y) == generated_walls(
                    draws@,
                    start.index_of(x, y),
                    x,
                    y,
                    tx as int,
                    ty as int,
                ));
            }
        }
    }

    /// Encodes the map (see `map_bytes`).
    pub fn serialize(&self) -> (out: Vec<u8>)
        ensures
            out@ == map_bytes(*self),
    {
        let mut result: Vec<u8> = Vec::new();
        push_le_u32(&mut result, self.size_x as u32);
        push_le_u32(&mut result, self.size_y as u32);
        push_le_u32(&mut result, self.tiles_x as u32);
        push_le_u32(&mut result, self.tiles_y as u32);
        push_le_u32(&mut result, self.tile_size as u32);
        let ghost header = result@;
        let mut i: usize = 0;
        while i < self.tiles.len()
            invariant
                0 <= i <= self.tiles@.len(),
                result@ == header + tile_bytes(self.tiles@.subrange(0, i as int)),
            decreases self.tiles@.len() - i,
        {
            let b = self.tiles[i].serialize();
            result.push(b[0]);
            assert(tile_bytes(self.tiles@.subrange(0, i + 1)) =~= tile_bytes(
                self.tiles@.subrange(0, i as int),
            ).push(self.tiles@[i as int].to_byte()));
            i = i + 1;
        }
        assert(self.tiles@.subrange(0, self.tiles@.len() as int) =~= self.tiles@);
        assert(result@ =~= map_bytes(*self));
        result
    }

    /// Decodes a map from its byte form (see `map_bytes`): the header gives
    /// the dimensions and the following bytes the tiles; bytes after them
    /// are ignored.
    pub fn deserialize(data: &[u8]) -> (m: TileMap)
        requires
            is_map_data(data@),
        ensures
            m.size_x == header_field(data@, 0),
            m.size_y == header_field(data@, 1),
            m.tiles_x == header_field(data@, 2),
            m.tiles_y == header_field(data@, 3),
            m.tile_size == header_field(data@, 4),
            m.tiles@ == decoded_tiles(data@),
            m.well_formed(),
    {
        let dl = data.len();
        let size_x = read_le_u32(data, 0) as usize;
        let size_y = read_le_u32(data, 4) as usize;
        let tiles_x = read_le_u32(data, 8) as usize;
        let tiles_y = read_le_u32(data, 12) as usize;
        let tile_size = read_le_u32(data, 16) as usize;
        assert(tiles_x * tiles_y <= dl);
        let expected_tiles = tiles_x * tiles_y;
        let mut tiles: Vec<Direction> = Vec::new();
        let mut i: usize = 0;
        while i < expected_tiles
            invariant
                0 <= i <= expected_tiles,
                expected_tiles == header_tiles(data@),
                20 + expected_tiles <= data@.len(),
                dl == data@.len(),
                tiles@ == data@.subrange(20, 20 + i).map_values(|b: u8| Direction::from_byte(b)),
            decreases expected_tiles - i,
        {
            let tile_data = &data[20 + i..20 + i + 1];
            assert(tile_data@ =~= seq![data@[20 + i]]);
            tiles.push(Direction::deserialize(tile_data));
            assert(data@.subrange(20, 20 + i + 1).map_values(|b: u8| Direction::from_byte(b)) =~= data@.subrange(
                20,
                20 + i,
            ).map_values(|b: u8| Direction::from_byte(b)).push(Direction::from_byte(data@[20 + i])));
            i = i + 1;
        }
        TileMap { size_x, size_y, tiles_x, tiles_y, tile_size, tiles }
    }

    /// Removes every wall of every tile.
    pub fn clear_walls(&mut self)
        ensures
            final(self).same_shape(old(self)),
            forall|i: int|
                0 <= i < final(self).tiles@.len() ==> #[trigger] final(self).tiles@[i]
                    == Direction::open_tile(),
    {
        let n = self.tiles.len();
        let mut i: usize = 0;
        while i < n
            invariant
                0 <= i <= n,
                n == self.tiles@.len(),
                self.same_shape(old(self)),
                forall|j: int| 0 <= j < i ==> #[trigger] self.tiles@[j] == Direction::open_tile(),
            decreases n - i,
        {
            self.tiles.set(i, Direction { up: false, right: false, down: false, left: false });
            i = i + 1;
        }
    }
}

} // verus!
