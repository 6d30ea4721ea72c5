//! The first map generator of the game: after the random walls are drawn,
//! every area is joined to the largest one by carving a straight path from
//! the largest area's first tile to the other area's first tile.
use vstd::prelude::*;
use crate::usr::game::tanks::map::{
    views, distinct_areas,
    TileMap, Direction, reachable, is_walk, removed_inner_walls, lemma_remove_inner, lemma_removed_refl,
    lemma_removed_trans, lemma_reachable_refl, lemma_grid_index, fewer_walls, areas_valid, listed_before,
    holds, first_of, generated_walls,
};

verus! {

/// A walk followed by a step is a walk.
pub proof fn lemma_reachable_extend(m: TileMap, ax: int, ay: int, bx: int, by: int, cx: int, cy: int)
    requires
        reachable(m, ax, ay, bx, by),
        m.step(bx, by, cx, cy),
    ensures
        reachable(m, ax, ay, cx, cy),
{
    let p = choose|p: Seq<(int, int)>| is_walk(m, p) && p[0] == (ax, ay) && p.last() == (bx, by);
    let q = p.push((cx, cy));
    assert forall|i: int| 0 <= i < q.len() - 1 implies #[trigger] m.step(q[i].0, q[i].1, q[i + 1].0, q[i + 1].1) by {
        if i < p.len() - 1 {
            assert(q[i] == p[i] && q[i + 1] == p[i + 1]);
            assert(m.step(p[i].0, p[i].1, p[i + 1].0, p[i + 1].1));
        } else {
            assert(q[i] == p.last());
        }
    }
    assert(is_walk(m, q) && q[0] == (ax, ay) && q.last() == (cx, cy));
}

/// Two walks, the second starting where the first ends, make a walk.
pub proof fn lemma_reachable_trans(m: TileMap, ax: int, ay: int, bx: int, by: int, cx: int, cy: int)
    requires
        reachable(m, ax, ay, bx, by),
        reachable(m, bx, by, cx, cy),
    ensures
        reachable(m, ax, ay, cx, cy),
{
    let p = choose|p: Seq<(int, int)>| is_walk(m, p) && p[0] == (ax, ay) && p.last() == (bx, by);
    let q = choose|q: Seq<(int, int)>| is_walk(m, q) && q[0] == (bx, by) && q.last() == (cx, cy);
    let r = p + q.drop_first();
    assert forall|i: int| 0 <= i < r.len() - 1 implies #[trigger] m.step(r[i].0, r[i].1, r[i + 1].0, r[i + 1].1) by {
        if i < p.len() - 1 {
            assert(r[i] == p[i] && r[i + 1] == p[i + 1]);
            assert(m.step(p[i].0, p[i].1, p[i + 1].0, p[i + 1].1));
        } else {
            let j = i - (p.len() - 1);
            assert(r[i] == q[j]) by {
                if j > 0 {
                    assert(r[i] == q.drop_first()[j - 1]);
                }
            }
            assert(r[i + 1] == q[j + 1]);
            assert(m.step(q[j].0, q[j].1, q[j + 1].0, q[j + 1].1));
        }
    }
    if q.len() > 1 {
        assert(r.last() == q.last());
    } else {
        assert(r =~= p);
    }
    assert(is_walk(m, r) && r[0] == (ax, ay) && r.last() == (cx, cy));
}

/// Removing walls keeps every walk.
pub proof fn lemma_reachable_mono(m1: TileMap, m2: TileMap, ax: int, ay: int, bx: int, by: int)
    requires
        m1.well_formed(),
        m2.same_shape(&m1),
        removed_inner_walls(m1, m2.tiles@),
        reachable(m1, ax, ay, bx, by),
    ensures
        reachable(m2, ax, ay, bx, by),
{
    reveal(removed_inner_walls);
    let p = choose|p: Seq<(int, int)>| is_walk(m1, p) && p[0] == (ax, ay) && p.last() == (bx, by);
    assert forall|i: int| 0 <= i < p.len() - 1 implies #[trigger] m2.step(p[i].0, p[i].1, p[i + 1].0, p[i + 1].1) by {
        let (x, y) = p[i];
        assert(m1.step(x, y, p[i + 1].0, p[i + 1].1));
        assert(fewer_walls(m2.tiles@[m1.index_of(x, y)], m1.tile(x, y)));
        if x + 1 < m1.tiles_x {
            assert(m1.in_grid(x + 1, y));
            assert(fewer_walls(m2.tiles@[m1.index_of(x + 1, y)], m1.tile(x + 1, y)));
        }
        if y + 1 < m1.tiles_y {
            assert(m1.in_grid(x, y + 1));
            assert(fewer_walls(m2.tiles@[m1.index_of(x, y + 1)], m1.tile(x, y + 1)));
        }
    }
    assert(is_walk(m2, p));
}

/// The tiles `t` of a map `tx` tiles wide with the wall between tile
/// `(x, y)` and its right neighbour removed (the tile's right wall and the
/// neighbour's left wall).
pub open spec fn cut_right(t: Seq<Direction>, tx: int, x: int, y: int) -> Seq<Direction> {
    let i = y * tx + x;
    let u = t.update(i, Direction { right: false, ..t[i] });
    u.update(i + 1, Direction { left: false, ..u[i + 1] })
}

/// The tiles with the wall between tile `(x, y)` and its left neighbour
/// removed.
pub open spec fn cut_left(t: Seq<Direction>, tx: int, x: int, y: int) -> Seq<Direction> {
    let i = y * tx + x;
    let u = t.update(i, Direction { left: false, ..t[i] });
    u.update(i - 1, Direction { right: false, ..u[i - 1] })
}

/// The tiles with the wall between tile `(x, y)` and the tile below it
/// removed.
pub open spec fn cut_down(t: Seq<Direction>, tx: int, x: int, y: int) -> Seq<Direction> {
    let i = y * tx + x;
    let u = t.update(i, Direction { down: false, ..t[i] });
    u.update(i + tx, Direction { up: false, ..u[i + tx] })
}

/// The tiles with the wall between tile `(x, y)` and the tile above it
/// removed.
pub open spec fn cut_up(t: Seq<Direction>, tx: int, x: int, y: int) -> Seq<Direction> {
    let i = y * tx + x;
    let u = t.update(i, Direction { up: false, ..t[i] });
    u.update(i - tx, Direction { down: false, ..u[i - tx] })
}

/// The distance between two tiles counted in steps along rows and
/// columns.
pub open spec fn steps(x: int, y: int, x2: int, y2: int) -> nat {
    ((if x < x2 {
        x2 - x
    } else {
        x - x2
    }) + (if y < y2 {
        y2 - y
    } else {
        y - y2
    })) as nat
}

/// The tiles `t` after the walk from tile `(x, y)` to tile `(x2, y2)` has
/// removed the walls it crosses: each round the walk takes one step
/// towards `x2` along the row (when it is not there yet) and then one step
/// towards `y2` along the column, removing the wall between the tiles it
/// steps between.
pub open spec fn walk_cut(t: Seq<Direction>, tx: int, x: int, y: int, x2: int, y2: int) -> Seq<Direction>
    decreases steps(x, y, x2, y2),
{
    if x == x2 && y == y2 {
        t
    } else {
        let t1 = if x < x2 {
            cut_right(t, tx, x, y)
        } else if x > x2 {
            cut_left(t, tx, x, y)
        } else {
            t
        };
        let nx = if x < x2 {
            x + 1
        } else if x > x2 {
            x - 1
        } else {
            x
        };
        let t2 = if y < y2 {
            cut_down(t1, tx, nx, y)
        } else if y > y2 {
            cut_up(t1, tx, nx, y)
        } else {
            t1
        };
        let ny = if y < y2 {
            y + 1
        } else if y > y2 {
            y - 1
        } else {
            y
        };
        walk_cut(t2, tx, nx, ny, x2, y2)
    }
}

/// Removes the wall between tile `(x, y)` and its right neighbour.
fn carve_right(map: &mut TileMap, x: usize, y: usize)
    requires
        old(map).well_formed(),
        old(map).in_grid(x as int, y as int),
        x + 1 < old(map).tiles_x,
    ensures
        final(map).tiles@ == cut_right(old(map).tiles@, old(map).tiles_x as int, x as int, y as int),
        final(map).same_shape(old(map)),
        final(map).well_formed(),
        removed_inner_walls(*old(map), final(map).tiles@),
        final(map).step(x as int, y as int, x + 1, y as int),
{
    let ghost m0 = *map;
    let tx = map.tiles_x;
    let _len = map.tiles.len();
    proof {
        lemma_grid_index(x as int, y as int, tx as int, map.tiles_y as int);
        lemma_grid_index(x + 1, y as int, tx as int, map.tiles_y as int);
        lemma_removed_refl(m0);
    }
    let index = y * tx + x;
    let mut t = map.tiles[index];
    t.right = false;
    proof {
        lemma_remove_inner(m0, m0.tiles@, x as int, y as int, t);
    }
    map.tiles.set(index, t);
    let ghost m1 = *map;
    let next = y * tx + (x + 1);
    let mut u = map.tiles[next];
    u.left = false;
    proof {
        lemma_remove_inner(m0, m1.tiles@, x + 1, y as int, u);
    }
    map.tiles.set(next, u);
}

/// Removes the wall between tile `(x, y)` and its left neighbour (the
/// tile's left wall and the neighbour's right wall).
fn carve_left(map: &mut TileMap, x: usize, y: usize)
    requires
        old(map).well_formed(),
        old(map).in_grid(x as int, y as int),
        x > 0,
    ensures
        final(map).tiles@ == cut_left(old(map).tiles@, old(map).tiles_x as int, x as int, y as int),
        final(map).same_shape(old(map)),
        final(map).well_formed(),
        removed_inner_walls(*old(map), final(map).tiles@),
        final(map).step(x as int, y as int, x - 1, y as int),
{
    let ghost m0 = *map;
    let tx = map.tiles_x;
    let _len = map.tiles.len();
    proof {
        lemma_grid_index(x as int, y as int, tx as int, map.tiles_y as int);
        lemma_grid_index(x - 1, y as int, tx as int, map.tiles_y as int);
        lemma_removed_refl(m0);
    }
    let index = y * tx + x;
    let mut t = map.tiles[index];
    t.left = false;
    proof {
        lemma_remove_inner(m0, m0.tiles@, x as int, y as int, t);
    }
    map.tiles.set(index, t);
    let ghost m1 = *map;
    let next = y * tx + (x - 1);
    let mut u = map.tiles[next];
    u.right = false;
    proof {
        lemma_remove_inner(m0, m1.tiles@, x - 1, y as int, u);
    }
    map.tiles.set(next, u);
}

/// Removes the wall between tile `(x, y)` and the tile below it.
fn carve_down(map: &mut TileMap, x: usize, y: usize)
    requires
        old(map).well_formed(),
        old(map).in_grid(x as int, y as int),
        y + 1 < old(map).tiles_y,
    ensures
        final(map).tiles@ == cut_down(old(map).tiles@, old(map).tiles_x as int, x as int, y as int),
        final(map).same_shape(old(map)),
        final(map).well_formed(),
        removed_inner_walls(*old(map), final(map).tiles@),
        final(map).step(x as int, y as int, x as int, y + 1),
{
    let ghost m0 = *map;
    let tx = map.tiles_x;
    let _len = map.tiles.len();
    proof {
        lemma_grid_index(x as int, y as int, tx as int, map.tiles_y as int);
        lemma_grid_index(x as int, y + 1, tx as int, map.tiles_y as int);
        assert((y + 1) * tx == y * tx + tx) by (nonlinear_arith);
        lemma_removed_refl(m0);
    }
    let index = y * tx + x;
    let mut t = map.tiles[index];
    t.down = false;
    proof {
        lemma_remove_inner(m0, m0.tiles@, x as int, y as int, t);
    }
    map.tiles.set(index, t);
    let ghost m1 = *map;
    let next = (y + 1) * tx + x;
    let mut u = map.tiles[next];
    u.up = false;
    proof {
        lemma_remove_inner(m0, m1.tiles@, x as int, y + 1, u);
    }
    map.tiles.set(next, u);
}

/// Removes the wall between tile `(x, y)` and the tile above it (the
/// tile's top wall and the upper tile's bottom wall).
fn carve_up(map: &mut TileMap, x: usize, y: usize)
    requires
        old(map).well_formed(),
        old(map).in_grid(x as int, y as int),
        y > 0,
    ensures
        final(map).tiles@ == cut_up(old(map).tiles@, old(map).tiles_x as int, x as int, y as int),
        final(map).same_shape(old(map)),
        final(map).well_formed(),
        removed_inner_walls(*old(map), final(map).tiles@),
        final(map).step(x as int, y as int, x as int, y - 1),
{
    let ghost m0 = *map;
    let tx = map.tiles_x;
    let _len = map.tiles.len();
    proof {
        lemma_grid_index(x as int, y as int, tx as int, map.tiles_y as int);
        lemma_grid_index(x as int, y - 1, tx as int, map.tiles_y as int);
        assert((y - 1) * tx == y * tx - tx) by (nonlinear_arith);
        lemma_removed_refl(m0);
    }
    let index = y * tx + x;
    let mut t = map.tiles[index];
    t.up = false;
    proof {
        lemma_remove_inner(m0, m0.tiles@, x as int, y as int, t);
    }
    map.tiles.set(index, t);
    let ghost m1 = *map;
    let next = (y - 1) * tx + x;
    let mut u = map.tiles[next];
    u.down = false;
    proof {
        lemma_remove_inner(m0, m1.tiles@, x as int, y - 1, u);
    }
    map.tiles.set(next, u);
}

/// Joins tile `(x2, y2)` to tile `(x1, y1)`: walks from the first tile
/// towards the second, each round one column and one row closer, and
/// removes the walls it crosses. Afterwards the second tile can be reached
/// from the first; only walls inside the map are removed.
pub fn connect_areas(map: &mut TileMap, x1: usize, y1: usize, x2: usize, y2: usize)
    requires
        old(map).well_formed(),
        old(map).in_grid(x1 as int, y1 as int),
        old(map).in_grid(x2 as int, y2 as int),
    ensures
        final(map).same_shape(old(map)),
        final(map).well_formed(),
        removed_inner_walls(*old(map), final(map).tiles@),
        reachable(*final(map), x1 as int, y1 as int, x2 as int, y2 as int),
        final(map).tiles@ == walk_cut(old(map).tiles@, old(map).tiles_x as int, x1 as int, y1 as int, x2 as int, y2 as int),
{
    let ghost start = *map;
    proof {
        lemma_removed_refl(start);
        lemma_reachable_refl(start, x1 as int, y1 as int);
    }
    let mut x = x1;
    let mut y = y1;
    while x != x2 || y != y2
        invariant
            map.same_shape(&start),
            map.well_formed(),
            start.well_formed(),
            map.in_grid(x as int, y as int),
            map.in_grid(x2 as int, y2 as int),
            removed_inner_walls(start, map.tiles@),
            reachable(*map, x1 as int, y1 as int, x as int, y as int),
            walk_cut(map.tiles@, start.tiles_x as int, x as int, y as int, x2 as int, y2 as int) == walk_cut(
                start.tiles@,
                start.tiles_x as int,
                x1 as int,
                y1 as int,
                x2 as int,
                y2 as int,
            ),
        decreases (if x < x2 { x2 - x } else { x - x2 }) + (if y < y2 { y2 - y } else { y - y2 }),
    {
        let ghost t0 = map.tiles@;
        let ghost ox = x as int;
        let ghost oy = y as int;
        if x < x2 {
            let ghost before = *map;
            carve_right(map, x, y);
            proof {
                lemma_removed_trans(start, before, map.tiles@);
                lemma_reachable_mono(before, *map, x1 as int, y1 as int, x as int, y as int);
                lemma_reachable_extend(*map, x1 as int, y1 as int, x as int, y as int, x + 1, y as int);
            }
            x = x + 1;
        } else if x > x2 {
            let ghost before = *map;
            carve_left(map, x, y);
            proof {
                lemma_removed_trans(start, before, map.tiles@);
                lemma_reachable_mono(before, *map, x1 as int, y1 as int, x as int, y as int);
                lemma_reachable_extend(*map, x1 as int, y1 as int, x as int, y as int, x - 1, y as int);
            }
            x = x - 1;
        }
        if y < y2 {
            let ghost before = *map;
            carve_down(map, x, y);
            proof {
                lemma_removed_trans(start, before, map.tiles@);
                lemma_reachable_mono(before, *map, x1 as int, y1 as int, x as int, y as int);
                lemma_reachable_extend(*map, x1 as int, y1 as int, x as int, y as int, x as int, y + 1);
            }
            y = y + 1;
        } else if y > y2 {
            let ghost before = *map;
            carve_up(map, x, y);
            proof {
                lemma_removed_trans(start, before, map.tiles@);
                lemma_reachable_mono(before, *map, x1 as int, y1 as int, x as int, y as int);
                lemma_reachable_extend(*map, x1 as int, y1 as int, x as int, y as int, x as int, y - 1);
            }
            y = y - 1;
        }
        assert(walk_cut(t0, start.tiles_x as int, ox, oy, x2 as int, y2 as int) == walk_cut(
            map.tiles@,
            start.tiles_x as int,
            x as int,
            y as int,
            x2 as int,
            y2 as int,
        ));
    }
}

/// Area `a` is a largest one and no earlier area is as large: the first
/// area of a list sorted by size, largest first, with a stable sort.
pub open spec fn first_largest(ar: Seq<Vec<(usize, usize)>>, a: int) -> bool {
    &&& 0 <= a < ar.len()
    &&& forall|b: int| 0 <= b < ar.len() ==> #[trigger] ar[b]@.len() <= ar[a]@.len()
    &&& forall|b: int| 0 <= b < a ==> #[trigger] ar[b]@.len() < ar[a]@.len()
}

/// Every tile of the map can be reached from tile `(rx, ry)`.
pub open spec fn reaches_all(m: TileMap, rx: int, ry: int) -> bool {
    forall|x: int, y: int| m.in_grid(x, y) ==> #[trigger] reachable(m, rx, ry, x, y)
}

/// The index of the first largest area.
fn first_largest_area(areas: &Vec<Vec<(usize, usize)>>) -> (a: usize)
    requires
        areas@.len() > 0,
    ensures
        first_largest(areas@, a as int),
{
    let mut best: usize = 0;
    let mut i: usize = 1;
    while i < areas.len()
        invariant
            1 <= i <= areas@.len(),
            0 <= best < i,
            forall|b: int| 0 <= b < i ==> #[trigger] areas@[b]@.len() <= areas@[best as int]@.len(),
            forall|b: int| 0 <= b < best ==> #[trigger] areas@[b]@.len() < areas@[best as int]@.len(),
        decreases areas@.len() - i,
    {
        if areas[i].len() > areas[best].len() {
            best = i;
        }
        i = i + 1;
    }
    best
}

/// The tiles `t` after carving, for each of the first `n` areas other
/// than area `root`, the walk from the first tile of area `root` to the
/// first tile of that area (see `walk_cut`), in the order of the list.
pub open spec fn connect_all(t: Seq<Direction>, tx: int, ar: Seq<Vec<(usize, usize)>>, root: int, n: int) -> Seq<
    Direction,
>
    decreases n,
{
    if n <= 0 {
        t
    } else {
        let before = connect_all(t, tx, ar, root, n - 1);
        if n - 1 == root {
            before
        } else {
            walk_cut(before, tx, first_of(ar, root).0, first_of(ar, root).1, first_of(ar, n - 1).0, first_of(ar, n - 1).1)
        }
    }
}

/// The walls after joining the areas of `m`: `ar` is a list of the areas
/// of `m` as the flood fill finds them (see `areas_valid`), and the walks
/// from the first tile of the first largest area to the first tile of
/// every other area are carved.
pub open spec fn joined(m: TileMap, ar: Seq<Vec<(usize, usize)>>, tiles: Seq<Direction>) -> bool {
    &&& areas_valid(m, ar)
    &&& ar.len() == 0 ==> tiles == m.tiles@
    &&& ar.len() > 0 ==> exists|a: int|
        first_largest(ar, a) && tiles == connect_all(m.tiles@, m.tiles_x as int, ar, a, ar.len() as int)
}

/// Joins all areas of the map: when the map falls into more than one area
/// (see `TileMap::find_distinct_areas`), a path is carved from the first
/// tile of the largest area (the first of them when several are equally
/// large) to the first tile of every other area (see `connect_areas`).
/// The paths do not depend on each other, so the order in which they are
/// carved does not change the result. Afterwards every tile can be reached
/// from that first tile, and only walls inside the map were removed.
pub fn ensure_accessible_areas(map: &mut TileMap)
    requires
        old(map).well_formed(),
    ensures
        final(map).same_shape(old(map)),
        final(map).well_formed(),
        removed_inner_walls(*old(map), final(map).tiles@),
        old(map).tiles_x * old(map).tiles_y > 0 ==> exists|rx: int, ry: int|
            old(map).in_grid(rx, ry) && reaches_all(*final(map), rx, ry),
        exists|ar: Seq<Vec<(usize, usize)>>|
            views(ar) == distinct_areas(old(map).tiles_x as int, old(map).tiles_y as int, old(map).tiles@)
                && joined(*old(map), ar, final(map).tiles@),
{
    let ghost start = *map;
    proof {
        lemma_removed_refl(start);
    }
    let areas = map.find_distinct_areas();
    if areas.len() == 0 {
        proof {
            if start.tiles_x * start.tiles_y > 0 {
                assert(start.tiles_x > 0 && start.tiles_y > 0) by (nonlinear_arith)
                    requires
                        start.tiles_x * start.tiles_y > 0,
                ;
                assert(start.in_grid(0, 0));
                lemma_grid_index(0, 0, start.tiles_x as int, start.tiles_y as int);
                assert(listed_before(start, areas@, areas@.len() as int, start.index_of(0, 0)));
            }
            assert(joined(start, areas@, map.tiles@));
            assert(views(areas@) == distinct_areas(start.tiles_x as int, start.tiles_y as int, start.tiles@));
        }
        return;
    }
    let root_area = first_largest_area(&areas);
    assert(holds(areas@, root_area as int, 0));
    let root = areas[root_area][0];
    let ghost (rx, ry) = (root.0 as int, root.1 as int);
    assert(start.in_grid(rx, ry));
    proof {
        lemma_reachable_refl(start, rx, ry);
    }
    let mut i: usize = 0;
    while i < areas.len()
        invariant
            0 <= i <= areas@.len(),
            0 <= root_area < areas@.len(),
            (rx, ry) == first_of(areas@, root_area as int),
            root == areas@[root_area as int]@[0],
            start.in_grid(rx, ry),
            areas_valid(start, areas@),
            map.same_shape(&start),
            map.well_formed(),
            start.well_formed(),
            removed_inner_walls(start, map.tiles@),
            reachable(*map, rx, ry, rx, ry),
            forall|b: int| 0 <= b < i ==> #[trigger] reachable(*map, rx, ry, first_of(areas@, b).0, first_of(areas@, b).1),
            first_largest(areas@, root_area as int),
            map.tiles@ == connect_all(start.tiles@, start.tiles_x as int, areas@, root_area as int, i as int),
        decreases areas@.len() - i,
    {
        let ghost before = *map;
        if i != root_area {
            assert(holds(areas@, i as int, 0));
            let target = areas[i][0];
            connect_areas(map, root.0, root.1, target.0, target.1);
            proof {
                lemma_removed_trans(start, before, map.tiles@);
            }
        } else {
            proof {
                lemma_removed_refl(before);
            }
        }
        proof {
            lemma_reachable_mono(before, *map, rx, ry, rx, ry);
            assert forall|b: int| 0 <= b < i + 1 implies #[trigger] reachable(*map, rx, ry, first_of(areas@, b).0, first_of(areas@, b).1) by {
                if b < i {
                    assert(reachable(before, rx, ry, first_of(areas@, b).0, first_of(areas@, b).1));
                    lemma_reachable_mono(before, *map, rx, ry, first_of(areas@, b).0, first_of(areas@, b).1);
                }
            }
        }
        i = i + 1;
    }
    proof {
        assert forall|x: int, y: int| start.in_grid(x, y) implies #[trigger] reachable(*map, rx, ry, x, y) by {
            assert(listed_before(start, areas@, areas@.len() as int, start.index_of(x, y)));
            let (b, j) = choose|b: int, j: int|
                0 <= b < areas@.len() && 0 <= j < areas@[b]@.len() && #[trigger] start.index_of(
                    areas@[b]@[j].0 as int,
                    areas@[b]@[j].1 as int,
                ) == start.index_of(x, y);
            assert(holds(areas@, b, j));
            let t = areas@[b]@[j];
            assert(start.in_grid(t.0 as int, t.1 as int));
            crate::usr::game::tanks::map::lemma_grid_index_injective(
                t.0 as int,
                t.1 as int,
                x,
                y,
                start.tiles_x as int,
            );
            assert(reachable(start, first_of(areas@, b).0, first_of(areas@, b).1, x, y));
            lemma_reachable_mono(start, *map, first_of(areas@, b).0, first_of(areas@, b).1, x, y);
            lemma_reachable_trans(*map, rx, ry, first_of(areas@, b).0, first_of(areas@, b).1, x, y);
        }
        assert(reaches_all(*map, rx, ry));
        assert(joined(start, areas@, map.tiles@));
        assert(views(areas@) == distinct_areas(start.tiles_x as int, start.tiles_y as int, start.tiles@));
    }
}

/// Generates the walls of the map from random draws the first way: removes
/// all walls, sets the top and left wall of every tile from `draws` (see
/// `TileMap::add_random_walls`), closes the border and joins all areas
/// (see `ensure_accessible_areas`). Afterwards every tile has at most the
/// walls that the draws and the border give it, the border is closed,
/// every tile can be reached from one tile, and the walls are exactly those
/// of the drawn map after joining its areas (see `joined`).
pub fn auto_set_walls(map: &mut TileMap, draws: &[(bool, bool)])
    requires
        old(map).well_formed(),
        draws@.len() == old(map).tiles@.len(),
        (old(map).tiles_x > 0) == (old(map).tiles_y > 0),
    ensures
        final(map).same_shape(old(map)),
        final(map).well_formed(),
        forall|x: int, y: int|
            old(map).in_grid(x, y) ==> {
                let d = #[trigger] final(map).tile(x, y);
                let g = generated_walls(
                    draws@,
                    old(map).index_of(x, y),
                    x,
                    y,
                    old(map).tiles_x as int,
                    old(map).tiles_y as int,
                );
                &&& fewer_walls(d, g)
                &&& (y == 0 ==> d.up)
                &&& (x == old(map).tiles_x - 1 ==> d.right)
                &&& (y == old(map).tiles_y - 1 ==> d.down)
                &&& (x == 0 ==> d.left)
            },
        old(map).tiles_x * old(map).tiles_y > 0 ==> exists|rx: int, ry: int|
            old(map).in_grid(rx, ry) && reaches_all(*final(map), rx, ry),
        exists|g: TileMap, ar: Seq<Vec<(usize, usize)>>|
            {
                &&& g.same_shape(old(map))
                &&& g.well_formed()
                &&& forall|x: int, y: int|
                    old(map).in_grid(x, y) ==> #[trigger] g.tile(x, y) == generated_walls(
                        draws@,
                        old(map).index_of(x, y),
                        x,
                        y,
                        old(map).tiles_x as int,
                        old(map).tiles_y as int,
                    )
                &&& views(ar) == distinct_areas(g.tiles_x as int, g.tiles_y as int, g.tiles@)
                &&& joined(g, ar, final(map).tiles@)
            },
{
    let ghost start = *map;
    let tx = map.tiles_x;
    let ty = map.tiles_y;
    map.clear_walls();
    map.add_random_walls(draws);
    map.set_outer_walls();
    let ghost generated = *map;
    proof {
        assert forall|x: int, y: int| start.in_grid(x, y) implies #[trigger] generated.tile(x, y)
            == generated_walls(draws@, start.index_of(x, y), x, y, tx as int, ty as int) by {
            lemma_grid_index(x, y, tx as int, ty as int);
        }
    }
    ensure_accessible_areas(map);
    proof {
        reveal(removed_inner_walls);
        assert forall|x: int, y: int| start.in_grid(x, y) implies {
            let d = #[trigger] map.tile(x, y);
            let g = generated_walls(draws@, start.index_of(x, y), x, y, tx as int, ty as int);
            &&& fewer_walls(d, g)
            &&& (y == 0 ==> d.up)
            &&& (x == tx - 1 ==> d.right)
            &&& (y == ty - 1 ==> d.down)
            &&& (x == 0 ==> d.left)
        } by {
            assert(generated.in_grid(x, y));
            let _ = map.tiles@[generated.index_of(x, y)];
            assert(generated.tile(x, y) == generated_walls(draws@, start.index_of(x, y), x, y, tx as int, ty as int));
        }
        let ar = choose|ar: Seq<Vec<(usize, usize)>>|
            views(ar) == distinct_areas(generated.tiles_x as int, generated.tiles_y as int, generated.tiles@)
                && joined(generated, ar, map.tiles@);
        assert(views(ar) == distinct_areas(generated.tiles_x as int, generated.tiles_y as int, generated.tiles@)
            && joined(generated, ar, map.tiles@));
    }
}

} // verus!
