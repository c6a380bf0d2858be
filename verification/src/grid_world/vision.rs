//! Line of sight: Bresenham lines between cells, blocked by walls on the
//! way and by diagonal steps between two walls, within a perception range.

use vstd::prelude::*;

use crate::grid_world::world;
use crate::grid_world::world::{World, walls};

verus! {

pub open spec fn iabs(v: int) -> int {
    if v < 0 {
        -v
    } else {
        v
    }
}

/// The cells that Bresenham's algorithm visits from `(x, y)` with error term
/// `err` towards `(tx, ty)`, at most `fuel` steps, both ends included.
pub open spec fn bres_walk(
    x: int,
    y: int,
    err: int,
    tx: int,
    ty: int,
    dx: int,
    dy: int,
    sx: int,
    sy: int,
    fuel: nat,
) -> Seq<(int, int)>
    decreases fuel,
{
    if (x == tx && y == ty) || fuel == 0 {
        seq![(x, y)]
    } else {
        let e2 = 2 * err;
        let x2 = if e2 >= dy {
            x + sx
        } else {
            x
        };
        let err1 = if e2 >= dy {
            err + dy
        } else {
            err
        };
        let y2 = if e2 <= dx {
            y + sy
        } else {
            y
        };
        let err2 = if e2 <= dx {
            err1 + dx
        } else {
            err1
        };
        seq![(x, y)] + bres_walk(x2, y2, err2, tx, ty, dx, dy, sx, sy, (fuel - 1) as nat)
    }
}

/// The line from `from` to `to` in integer coordinates.
pub open spec fn line_ints(from: (usize, usize), to: (usize, usize)) -> Seq<(int, int)> {
    let x0 = from.0 as int;
    let y0 = from.1 as int;
    let x1 = to.0 as int;
    let y1 = to.1 as int;
    let dx = iabs(x1 - x0);
    let dy = -iabs(y1 - y0);
    let sx = if x0 < x1 {
        1int
    } else {
        -1int
    };
    let sy = if y0 < y1 {
        1int
    } else {
        -1int
    };
    bres_walk(x0, y0, dx + dy, x1, y1, dx, dy, sx, sy, (dx - dy) as nat)
}

pub open spec fn to_cells(s: Seq<(int, int)>) -> Seq<(usize, usize)> {
    s.map_values(|p: (int, int)| (p.0 as usize, p.1 as usize))
}

/// The cells of the line from `from` to `to`, both ends included.
pub open spec fn line_points(from: (usize, usize), to: (usize, usize)) -> Seq<(usize, usize)> {
    to_cells(line_ints(from, to))
}

/// The coordinates of a line fit `i32`, and the line spans less than 2^29
/// each way, so its 32-bit error term cannot overflow.
pub open spec fn line_fits(from: (usize, usize), to: (usize, usize)) -> bool {
    &&& from.0 <= i32::MAX
    &&& from.1 <= i32::MAX
    &&& to.0 <= i32::MAX
    &&& to.1 <= i32::MAX
    &&& iabs(to.0 - from.0) <= 0x1fff_ffff
    &&& iabs(to.1 - from.1) <= 0x1fff_ffff
}

/// One step of the walk keeps the Bresenham bookkeeping: `i` steps taken
/// along x, `j` along y, and the error term in closed form.
#[verifier::opaque]
pub open spec fn bres_inv(
    x: int,
    y: int,
    err: int,
    x0: int,
    y0: int,
    dx: int,
    d: int,
    sx: int,
    sy: int,
    i: int,
    j: int,
) -> bool {
    &&& 0 <= i <= dx
    &&& 0 <= j <= d
    &&& x == x0 + sx * i
    &&& y == y0 + sy * j
    &&& err == dx * (1 + j) - d * (1 + i)
    &&& -2 * (dx + d) <= err <= 2 * (dx + d)
}

proof fn lemma_no_overshoot(dx: int, d: int, i: int, j: int)
    requires
        0 <= i <= dx,
        0 <= j <= d,
        !(i == dx && j == d),
    ensures
        ({
            let err = dx * (1 + j) - d * (1 + i);
            &&& (2 * err >= -d) ==> i < dx
            &&& (2 * err <= dx) ==> j < d
        }),
{
    let err = dx * (1 + j) - d * (1 + i);
    if i == dx {
        assert(dx * (1 + j) <= dx * d) by (nonlinear_arith)
            requires
                0 <= dx,
                1 + j <= d,
        ;
        assert(d * (1 + i) == d + d * dx) by (nonlinear_arith)
            requires
                i == dx,
        ;
        assert(dx * d == d * dx) by (nonlinear_arith);
    }
    if j == d {
        assert(d * (1 + i) <= d * dx) by (nonlinear_arith)
            requires
                0 <= d,
                1 + i <= dx,
        ;
        assert(dx * (1 + j) == dx + dx * d) by (nonlinear_arith)
            requires
                j == d,
        ;
        assert(dx * d == d * dx) by (nonlinear_arith);
    }
}

/// One step of the walk, from a state that has not reached the target.
proof fn lemma_step(
    x: int,
    y: int,
    err: int,
    x0: int,
    y0: int,
    dx: int,
    d: int,
    sx: int,
    sy: int,
    i: int,
    j: int,
)
    requires
        bres_inv(x, y, err, x0, y0, dx, d, sx, sy, i, j),
        !(i == dx && j == d),
    ensures
        ({
            let e2 = 2 * err;
            let step_x = e2 >= -d;
            let step_y = e2 <= dx;
            let x2 = if step_x {
                x + sx
            } else {
                x
            };
            let y2 = if step_y {
                y + sy
            } else {
                y
            };
            let err2 = err + (if step_x {
                -d
            } else {
                0
            }) + (if step_y {
                dx
            } else {
                0
            });
            let i2 = if step_x {
                i + 1
            } else {
                i
            };
            let j2 = if step_y {
                j + 1
            } else {
                j
            };
            &&& step_x || step_y
            &&& bres_inv(x2, y2, err2, x0, y0, dx, d, sx, sy, i2, j2)
        }),
{
    reveal(bres_inv);
    lemma_no_overshoot(dx, d, i, j);
    let e2 = 2 * err;
    let step_x = e2 >= -d;
    let step_y = e2 <= dx;
    let i2 = if step_x {
        i + 1
    } else {
        i
    };
    let j2 = if step_y {
        j + 1
    } else {
        j
    };
    assert(sx * (i + 1) == sx * i + sx) by (nonlinear_arith);
    assert(sy * (j + 1) == sy * j + sy) by (nonlinear_arith);
    assert(dx * (1 + (j + 1)) == dx * (1 + j) + dx) by (nonlinear_arith);
    assert(d * (1 + (i + 1)) == d * (1 + i) + d) by (nonlinear_arith);
}

/// The walk reaches the target when both counters are full.
proof fn lemma_at_target(x: int, y: int, err: int, x0: int, y0: int, x1: int, y1: int, dx: int, d: int, sx: int, sy: int, i: int, j: int)
    requires
        dx == iabs(x1 - x0),
        d == iabs(y1 - y0),
        sx == (if x0 < x1 { 1int } else { -1int }),
        sy == (if y0 < y1 { 1int } else { -1int }),
        bres_inv(x, y, err, x0, y0, dx, d, sx, sy, i, j),
    ensures
        (x == x1 && y == y1) <==> (i == dx && j == d),
        if sx == 1 { x0 <= x <= x1 } else { x1 <= x <= x0 },
        if sy == 1 { y0 <= y <= y1 } else { y1 <= y <= y0 },
        0 <= i <= dx,
        0 <= j <= d,
        -2 * (dx + d) <= err <= 2 * (dx + d),
{
    reveal(bres_inv);
    if sx == 1 {
        assert(x == x0 + i);
    } else {
        assert(x == x0 - i) by (nonlinear_arith)
            requires
                x == x0 + sx * i,
                sx == -1,
        ;
    }
    if sy == 1 {
        assert(y == y0 + j);
    } else {
        assert(y == y0 - j) by (nonlinear_arith)
            requires
                y == y0 + sy * j,
                sy == -1,
        ;
    }
}

proof fn lemma_to_cells_push(a: Seq<(int, int)>, p: (int, int))
    ensures
        to_cells(a.push(p)) == to_cells(a).push((p.0 as usize, p.1 as usize)),
{
    assert(to_cells(a.push(p)) =~= to_cells(a).push((p.0 as usize, p.1 as usize)));
}

proof fn lemma_walk_len(x: int, y: int, err: int, tx: int, ty: int, dx: int, dy: int, sx: int, sy: int, fuel: nat)
    ensures
        bres_walk(x, y, err, tx, ty, dx, dy, sx, sy, fuel).len() >= 1,
        bres_walk(x, y, err, tx, ty, dx, dy, sx, sy, fuel)[0] == (x, y),
{
}

/// Unfolds one step of the walk behind an already visited prefix.
proof fn lemma_walk_unfold(
    done: Seq<(int, int)>,
    x: int,
    y: int,
    err: int,
    tx: int,
    ty: int,
    dx: int,
    dy: int,
    sx: int,
    sy: int,
    fuel: nat,
)
    requires
        !(x == tx && y == ty),
        fuel > 0,
    ensures
        ({
            let e2 = 2 * err;
            let x2 = if e2 >= dy { x + sx } else { x };
            let y2 = if e2 <= dx { y + sy } else { y };
            let err2 = err + (if e2 >= dy { dy } else { 0 }) + (if e2 <= dx { dx } else { 0 });
            let rest = bres_walk(x2, y2, err2, tx, ty, dx, dy, sx, sy, (fuel - 1) as nat);
            &&& done + bres_walk(x, y, err, tx, ty, dx, dy, sx, sy, fuel) == done.push((x, y)) + rest
            &&& bres_walk(x, y, err, tx, ty, dx, dy, sx, sy, fuel).len() == rest.len() + 1
            &&& rest.len() >= 1
        }),
{
    let e2 = 2 * err;
    let x2 = if e2 >= dy { x + sx } else { x };
    let y2 = if e2 <= dx { y + sy } else { y };
    let err2 = err + (if e2 >= dy { dy } else { 0 }) + (if e2 <= dx { dx } else { 0 });
    let rest = bres_walk(x2, y2, err2, tx, ty, dx, dy, sx, sy, (fuel - 1) as nat);
    lemma_walk_len(x2, y2, err2, tx, ty, dx, dy, sx, sy, (fuel - 1) as nat);
    assert(done + bres_walk(x, y, err, tx, ty, dx, dy, sx, sy, fuel) =~= done.push((x, y)) + rest);
}

/// The cells on the line from `from` to `to`, as Bresenham's algorithm
/// visits them, starting at `from` and ending at `to`.
pub fn trace_line(from: (usize, usize), to: (usize, usize)) -> (points: Vec<(usize, usize)>)
    requires
        line_fits(from, to),
    ensures
        points@ == line_points(from, to),
{
    let mut points: Vec<(usize, usize)> = Vec::new();
    let mut x0 = from.0 as i64;
    let mut y0 = from.1 as i64;
    let x1 = to.0 as i64;
    let y1 = to.1 as i64;
    let dx = if x1 - x0 < 0 {
        -(x1 - x0)
    } else {
        x1 - x0
    };
    let dy = if y1 - y0 < 0 {
        (y1 - y0)
    } else {
        -(y1 - y0)
    };
    let sx: i64 = if x0 < x1 {
        1
    } else {
        -1
    };
    let sy: i64 = if y0 < y1 {
        1
    } else {
        -1
    };
    let mut err = dx + dy;
    let ghost d: int = -dy;
    let ghost gx0: int = x0 as int;
    let ghost gy0: int = y0 as int;
    let ghost mut i: int = 0;
    let ghost mut j: int = 0;
    let ghost mut fuel: nat = (dx - dy) as nat;
    let ghost full = line_ints(from, to);
    let ghost mut done: Seq<(int, int)> = seq![];
    assert(bres_inv(x0 as int, y0 as int, err as int, gx0, gy0, dx as int, d, sx as int, sy as int, 0, 0)) by {
        reveal(bres_inv);
        assert(bres_inv(x0 as int, y0 as int, err as int, gx0, gy0, dx as int, d, sx as int, sy as int, 0, 0)) by (nonlinear_arith)
            requires
                gx0 == x0, gy0 == y0, err == dx + dy, d == -dy, dx >= 0, d >= 0,
        {
            reveal(bres_inv);
        }
    }
    assert(done + line_ints(from, to) =~= line_ints(from, to));
    assert(full == done + bres_walk(
        x0 as int,
        y0 as int,
        err as int,
        x1 as int,
        y1 as int,
        dx as int,
        dy as int,
        sx as int,
        sy as int,
        fuel,
    ));
    loop
        invariant_except_break
            points@ == to_cells(done),
        invariant
            bres_inv(x0 as int, y0 as int, err as int, gx0, gy0, dx as int, d, sx as int, sy as int, i, j),
            gx0 == from.0,
            gy0 == from.1,
            x1 == to.0,
            y1 == to.1,
            dx == iabs(to.0 - from.0),
            d == iabs(to.1 - from.1),
            dy == -d,
            dx <= 0x1fff_ffff && d <= 0x1fff_ffff,
            sx == (if gx0 < x1 { 1int } else { -1int }),
            sy == (if gy0 < y1 { 1int } else { -1int }),
            fuel >= (dx - i) + (d - j),
            full == line_ints(from, to),
            full == done + bres_walk(
                x0 as int,
                y0 as int,
                err as int,
                x1 as int,
                y1 as int,
                dx as int,
                dy as int,
                sx as int,
                sy as int,
                fuel,
            ),
        ensures
            points@ == to_cells(full),
        decreases fuel,
    {
        proof {
            lemma_at_target(x0 as int, y0 as int, err as int, gx0, gy0, x1 as int, y1 as int, dx as int, d, sx as int, sy as int, i, j);
        }
        proof {
            lemma_to_cells_push(done, (x0 as int, y0 as int));
        }
        points.push((x0 as usize, y0 as usize));
        if x0 == x1 && y0 == y1 {
            assert(full =~= done.push((x0 as int, y0 as int)));
            break;
        }
        proof {
            lemma_step(x0 as int, y0 as int, err as int, gx0, gy0, dx as int, d, sx as int, sy as int, i, j);
            {
                let e2 = 2 * err;
                let x2: int = if e2 >= dy { x0 + sx } else { x0 as int };
                let y2: int = if e2 <= dx { y0 + sy } else { y0 as int };
                let err2: int = err + (if e2 >= dy { dy as int } else { 0 }) + (if e2 <= dx { dx as int } else { 0 });
                let i2: int = if e2 >= dy { i + 1 } else { i };
                let j2: int = if e2 <= dx { j + 1 } else { j };
                lemma_at_target(x2, y2, err2, gx0, gy0, x1 as int, y1 as int, dx as int, d, sx as int, sy as int, i2, j2);
            }
            assert(fuel > 0);
            lemma_walk_unfold(done, x0 as int, y0 as int, err as int, x1 as int, y1 as int, dx as int, dy as int, sx as int, sy as int, fuel);
            done = done.push((x0 as int, y0 as int));
        }
        let e2 = 2 * err;
        let step_x = e2 >= dy;
        let step_y = e2 <= dx;
        if step_x {
            err = err + dy;
            x0 = x0 + sx;
        }
        if step_y {
            err = err + dx;
            y0 = y0 + sy;
        }
        proof {
            if step_x { i = i + 1; }
            if step_y { j = j + 1; }
            fuel = (fuel - 1) as nat;
        }
    }
    points
}

/// A step between two cells that changes both coordinates.
pub open spec fn is_diag(p: (usize, usize), q: (usize, usize)) -> bool {
    p.0 != q.0 && p.1 != q.1
}

/// Both cells flanking a diagonal step hold walls.
pub open spec fn corner_blocked(walls: Set<(usize, usize)>, prev: (usize, usize), cur: (usize, usize)) -> bool {
    walls.contains((prev.0, cur.1)) && walls.contains((cur.0, prev.1))
}

/// Step `k` of a line lets sight through: no diagonal step between two
/// walls, and no wall on a cell before the last.
pub open spec fn step_clear(walls: Set<(usize, usize)>, pts: Seq<(usize, usize)>, k: int) -> bool {
    &&& !(is_diag(pts[k - 1], pts[k]) && corner_blocked(walls, pts[k - 1], pts[k]))
    &&& (k < pts.len() - 1 ==> !walls.contains(pts[k]))
}

pub open spec fn sq_dist(from: (usize, usize), to: (usize, usize)) -> int {
    (from.0 - to.0) * (from.0 - to.0) + (from.1 - to.1) * (from.1 - to.1)
}

/// The Bresenham line traced from `from` to `to` lets sight through within
/// the perception range (by squared Euclidean distance): no wall on a cell
/// between the ends and no diagonal step between two walls. The end cells
/// themselves may be walls.
pub open spec fn los_traced(walls: Set<(usize, usize)>, from: (usize, usize), to: (usize, usize), range: usize) -> bool {
    &&& sq_dist(from, to) <= range * range
    &&& forall|k: int| 1 <= k < line_points(from, to).len() ==> #[trigger] step_clear(walls, line_points(from, to), k)
}

/// `a` comes no later than `b` in row-major order.
pub open spec fn lex_le(a: (usize, usize), b: (usize, usize)) -> bool {
    a.0 < b.0 || (a.0 == b.0 && a.1 <= b.1)
}

/// `a` and `b` see each other: the line is traced from whichever of the
/// two comes first in row-major order, so the answer does not depend on
/// the direction.
#[verifier::opaque]
pub open spec fn los(walls: Set<(usize, usize)>, a: (usize, usize), b: (usize, usize), range: usize) -> bool {
    if lex_le(a, b) {
        los_traced(walls, a, b, range)
    } else {
        los_traced(walls, b, a, range)
    }
}

/// The arithmetic of a sight check fits: 32-bit coordinates and distances,
/// and a squared range that fits a `usize`.
pub open spec fn los_fits(from: (usize, usize), to: (usize, usize), range: usize) -> bool {
    &&& from.0 <= i32::MAX
    &&& from.1 <= i32::MAX
    &&& to.0 <= i32::MAX
    &&& to.1 <= i32::MAX
    &&& sq_dist(from, to) <= i32::MAX
    &&& range * range <= usize::MAX
}

proof fn lemma_sq_bound(a: int)
    requires
        a * a <= i32::MAX,
    ensures
        -46341 < a < 46341,
{
    if a >= 46341 {
        assert(a * a >= 46341 * 46341) by (nonlinear_arith)
            requires
                a >= 46341,
        ;
    }
    if a <= -46341 {
        assert(a * a >= 46341 * 46341) by (nonlinear_arith)
            requires
                a <= -46341,
        ;
    }
}

proof fn lemma_to_cells_index(s: Seq<(int, int)>, k: int)
    requires
        0 <= k < s.len(),
    ensures
        to_cells(s)[k] == (s[k].0 as usize, s[k].1 as usize),
        to_cells(s).len() == s.len(),
{
}

/// Whether both cells flanking a diagonal step hold walls.
fn is_diagonal_corner_blocked(world: &World, prev: (usize, usize), current: (usize, usize)) -> (b: bool)
    ensures
        b == corner_blocked(walls(*world), prev, current),
{
    let flank_1 = (prev.0, current.1);
    let flank_2 = (current.0, prev.1);
    !world::is_walkable(world, flank_1) && !world::is_walkable(world, flank_2)
}

proof fn lemma_blocked_step(wl: Set<(usize, usize)>, from: (usize, usize), to: (usize, usize), range: usize, k: int)
    requires
        1 <= k < line_points(from, to).len(),
        !step_clear(wl, line_points(from, to), k),
    ensures
        !los_traced(wl, from, to, range),
{
}

/// Whether the line traced from `from` to `to` lets sight through within
/// `perception_range`.
#[verifier::rlimit(40)]
fn sight_traced(world: &World, from: (usize, usize), to: (usize, usize), perception_range: usize) -> (b: bool)
    requires
        los_fits(from, to, perception_range),
    ensures
        b == los_traced(walls(*world), from, to, perception_range),
{
    let ghost wl = walls(*world);
    let dr = from.0 as i32 - to.0 as i32;
    let dc = from.1 as i32 - to.1 as i32;
    proof {
        assert(0 <= (from.0 - to.0) * (from.0 - to.0)) by (nonlinear_arith);
        assert(0 <= (from.1 - to.1) * (from.1 - to.1)) by (nonlinear_arith);
        lemma_sq_bound(from.0 - to.0);
        lemma_sq_bound(from.1 - to.1);
    }
    if (dr * dr + dc * dc) as usize > perception_range * perception_range {
        return false;
    }
    let ghost pts = line_points(from, to);
    let mut x0 = from.0 as i32;
    let mut y0 = from.1 as i32;
    let x1 = to.0 as i32;
    let y1 = to.1 as i32;
    let dx = if x1 - x0 < 0 {
        -(x1 - x0)
    } else {
        x1 - x0
    };
    let dy = if y1 - y0 < 0 {
        (y1 - y0)
    } else {
        -(y1 - y0)
    };
    let sx: i32 = if x0 < x1 {
        1
    } else {
        -1
    };
    let sy: i32 = if y0 < y1 {
        1
    } else {
        -1
    };
    let mut err = dx + dy;
    let ghost d: int = -dy;
    let ghost gx0: int = x0 as int;
    let ghost gy0: int = y0 as int;
    let ghost mut i: int = 0;
    let ghost mut j: int = 0;
    let ghost mut fuel: nat = (dx - dy) as nat;
    let ghost full = line_ints(from, to);
    let ghost mut done: Seq<(int, int)> = seq![];
    assert(bres_inv(x0 as int, y0 as int, err as int, gx0, gy0, dx as int, d, sx as int, sy as int, 0, 0)) by {
        reveal(bres_inv);
        assert(bres_inv(x0 as int, y0 as int, err as int, gx0, gy0, dx as int, d, sx as int, sy as int, 0, 0)) by (nonlinear_arith)
            requires
                gx0 == x0, gy0 == y0, err == dx + dy, d == -dy, dx >= 0, d >= 0,
        {
            reveal(bres_inv);
        }
    }
    assert(done + line_ints(from, to) =~= line_ints(from, to));
    loop
        invariant
            bres_inv(x0 as int, y0 as int, err as int, gx0, gy0, dx as int, d, sx as int, sy as int, i, j),
            gx0 == from.0,
            gy0 == from.1,
            x1 == to.0,
            y1 == to.1,
            dx == iabs(to.0 - from.0),
            d == iabs(to.1 - from.1),
            dy == -d,
            dx + d <= 0x1fff_ffff,
            sx == (if gx0 < x1 { 1int } else { -1int }),
            sy == (if gy0 < y1 { 1int } else { -1int }),
            fuel >= (dx - i) + (d - j),
            full == line_ints(from, to),
            pts == to_cells(full),
            pts == line_points(from, to),
            wl == walls(*world),
            sq_dist(from, to) <= perception_range * perception_range,
            full == done + bres_walk(
                x0 as int,
                y0 as int,
                err as int,
                x1 as int,
                y1 as int,
                dx as int,
                dy as int,
                sx as int,
                sy as int,
                fuel,
            ),
            done.len() == 0 || !(x0 == x1 && y0 == y1),
            forall|k: int| 1 <= k <= done.len() ==> #[trigger] step_clear(wl, pts, k),
        decreases fuel,
    {
        proof {
            lemma_at_target(x0 as int, y0 as int, err as int, gx0, gy0, x1 as int, y1 as int, dx as int, d, sx as int, sy as int, i, j);
            assert(full[done.len() as int] == (x0 as int, y0 as int));
            lemma_to_cells_index(full, done.len() as int);
        }
        if x0 == x1 && y0 == y1 {
            assert(full =~= done.push((x0 as int, y0 as int)));
            return true;
        }
        proof {
            lemma_step(x0 as int, y0 as int, err as int, gx0, gy0, dx as int, d, sx as int, sy as int, i, j);
            {
                let e2 = 2 * err;
                let x2: int = if e2 >= dy { x0 + sx } else { x0 as int };
                let y2: int = if e2 <= dx { y0 + sy } else { y0 as int };
                let err2: int = err + (if e2 >= dy { dy as int } else { 0 }) + (if e2 <= dx { dx as int } else { 0 });
                let i2: int = if e2 >= dy { i + 1 } else { i };
                let j2: int = if e2 <= dx { j + 1 } else { j };
                lemma_at_target(x2, y2, err2, gx0, gy0, x1 as int, y1 as int, dx as int, d, sx as int, sy as int, i2, j2);
            }
            assert(fuel > 0);
            lemma_walk_unfold(done, x0 as int, y0 as int, err as int, x1 as int, y1 as int, dx as int, dy as int, sx as int, sy as int, fuel);
            done = done.push((x0 as int, y0 as int));
        }
        let e2 = 2 * err;
        let step_x = e2 >= dy;
        let step_y = e2 <= dx;
        let prev = (x0 as usize, y0 as usize);
        if step_x {
            err = err + dy;
            x0 = x0 + sx;
        }
        if step_y {
            err = err + dx;
            y0 = y0 + sy;
        }
        proof {
            if step_x { i = i + 1; }
            if step_y { j = j + 1; }
            fuel = (fuel - 1) as nat;
            lemma_at_target(x0 as int, y0 as int, err as int, gx0, gy0, x1 as int, y1 as int, dx as int, d, sx as int, sy as int, i, j);
            assert(full[done.len() as int] == (x0 as int, y0 as int));
            lemma_to_cells_index(full, done.len() as int);
            lemma_to_cells_index(full, done.len() - 1);
        }
        let current = (x0 as usize, y0 as usize);
        assert(pts[done.len() - 1] == prev);
        assert(pts[done.len() as int] == current);
        proof {
            lemma_walk_len(x0 as int, y0 as int, err as int, x1 as int, y1 as int, dx as int, dy as int, sx as int, sy as int, fuel);
            assert(1 <= done.len() < pts.len());
        }
        if step_x && step_y {
            if is_diagonal_corner_blocked(world, prev, current) {
                proof {
                    lemma_blocked_step(wl, from, to, perception_range, done.len() as int);
                }
                return false;
            }
        }
        if x0 == x1 && y0 == y1 {
            assert(full =~= done.push((x0 as int, y0 as int)));
            assert(step_clear(wl, pts, done.len() as int));
            return true;
        }
        proof {
            assert(fuel > 0);
            lemma_walk_unfold(done, x0 as int, y0 as int, err as int, x1 as int, y1 as int, dx as int, dy as int, sx as int, sy as int, fuel);
            assert(done.len() < pts.len() - 1);
        }
        if !world::is_walkable(world, current) {
            proof {
                lemma_blocked_step(wl, from, to, perception_range, done.len() as int);
            }
            return false;
        }
        assert(step_clear(wl, pts, done.len() as int));
    }
}

/// Whether `to` is visible from `from` within `perception_range` (the same
/// answer as from `to` to `from`).
pub fn has_line_of_sight(world: &World, from: (usize, usize), to: (usize, usize), perception_range: usize) -> (b: bool)
    requires
        los_fits(from, to, perception_range),
    ensures
        b == los(walls(*world), from, to, perception_range),
{
    proof {
        reveal(los);
    }
    if from.0 < to.0 || (from.0 == to.0 && from.1 <= to.1) {
        sight_traced(world, from, to, perception_range)
    } else {
        proof {
            lemma_range_symmetric(from, to);
        }
        sight_traced(world, to, from, perception_range)
    }
}

/// First and last row (or column) of the square window around `c` of
/// half-side `r`, clipped to `0 ..= n - 1`.
pub open spec fn win_lo(c: usize, r: usize) -> int {
    if c - r < 0 {
        0
    } else {
        c - r
    }
}

pub open spec fn win_hi(c: usize, r: usize, n: usize) -> int {
    if c + r > n - 1 {
        n - 1
    } else {
        c + r
    }
}

pub open spec fn in_window(height: usize, width: usize, from: (usize, usize), r: usize, p: (usize, usize)) -> bool {
    &&& win_lo(from.0, r) <= p.0 <= win_hi(from.0, r, height)
    &&& win_lo(from.1, r) <= p.1 <= win_hi(from.1, r, width)
}

/// The cells visible from `from` in a world: inside the clipped square
/// window of half-side `r`, and in line of sight.
pub open spec fn visible_set(
    height: usize,
    width: usize,
    wl: Set<(usize, usize)>,
    from: (usize, usize),
    r: usize,
) -> Set<(usize, usize)> {
    Set::new(|p: (usize, usize)| in_window(height, width, from, r, p) && los(wl, from, p, r))
}

pub open spec fn lex_lt(p: (usize, usize), q: (usize, usize)) -> bool {
    p.0 < q.0 || (p.0 == q.0 && p.1 < q.1)
}

/// Cells listed in row-major order, each once.
pub open spec fn row_major(s: Seq<(usize, usize)>) -> bool {
    forall|i: int, j: int| 0 <= i < j < s.len() ==> lex_lt(s[i], s[j])
}

pub open spec fn imax(a: int, b: int) -> int {
    if a < b {
        b
    } else {
        a
    }
}

/// The arithmetic of computing what `from` sees fits: 32-bit sizes and
/// window bounds, and squared distances of the window that fit.
pub open spec fn vision_fits(height: usize, width: usize, from: (usize, usize), r: usize) -> bool {
    let dr = imax(from.0 - win_lo(from.0, r), win_hi(from.0, r, height) - from.0);
    let dc = imax(from.1 - win_lo(from.1, r), win_hi(from.1, r, width) - from.1);
    &&& 1 <= height <= i32::MAX
    &&& 1 <= width <= i32::MAX
    &&& from.0 + r <= i32::MAX
    &&& from.1 + r <= i32::MAX
    &&& (win_lo(from.0, r) <= win_hi(from.0, r, height) && win_lo(from.1, r) <= win_hi(from.1, r, width))
        ==> (r * r <= usize::MAX && dr * dr + dc * dc <= i32::MAX)
}

/// Whether what `from` sees within range `r` can be computed on a grid of
/// this size: exactly `vision_fits`.
pub fn sight_fits(height: usize, width: usize, from: (usize, usize), r: usize) -> (b: bool)
    ensures
        b == vision_fits(height, width, from, r),
{
    if height < 1 || height > 0x7fff_ffff || width < 1 || width > 0x7fff_ffff {
        return false;
    }
    if from.0 > 0x7fff_ffff || r > 0x7fff_ffff - from.0 || from.1 > 0x7fff_ffff || r > 0x7fff_ffff - from.1 {
        return false;
    }
    let f0 = from.0 as i64;
    let f1 = from.1 as i64;
    let rr = r as i64;
    let h = height as i64;
    let w = width as i64;
    let lo0 = if f0 - rr < 0 { 0 } else { f0 - rr };
    let hi0 = if f0 + rr > h - 1 { h - 1 } else { f0 + rr };
    let lo1 = if f1 - rr < 0 { 0 } else { f1 - rr };
    let hi1 = if f1 + rr > w - 1 { w - 1 } else { f1 + rr };
    assert(lo0 == win_lo(from.0, r) && hi0 == win_hi(from.0, r, height));
    assert(lo1 == win_lo(from.1, r) && hi1 == win_hi(from.1, r, width));
    if lo0 <= hi0 && lo1 <= hi1 {
        let dr = if f0 - lo0 < hi0 - f0 { hi0 - f0 } else { f0 - lo0 };
        let dc = if f1 - lo1 < hi1 - f1 { hi1 - f1 } else { f1 - lo1 };
        assert(0 <= dr <= rr && 0 <= dc <= rr);
        assert(dr * dr <= rr * rr && dc * dc <= rr * rr && rr * rr <= 0x3fff_ffff_0000_0001) by (nonlinear_arith)
            requires
                0 <= dr <= rr,
                0 <= dc <= rr,
                rr <= 0x7fff_ffff,
        ;
        let sq_r = (rr * rr) as u128;
        sq_r <= usize::MAX as u128 && dr * dr + dc * dc <= 0x7fff_ffff
    } else {
        true
    }
}

proof fn lemma_sq_mono(a: int, b: int)
    requires
        -b <= a <= b,
    ensures
        a * a <= b * b,
{
    assert(a * a <= b * b) by (nonlinear_arith)
        requires
            -b <= a <= b,
    ;
}

/// The cells visible from `from`, in row-major order.
pub fn get_visible_cells(world: &World, from: (usize, usize), perception_range: usize) -> (visible: Vec<(usize, usize)>)
    requires
        vision_fits(world.height, world.width, from, perception_range),
    ensures
        row_major(visible@),
        forall|p: (usize, usize)| visible@.contains(p) <==> visible_set(world.height, world.width, walls(*world), from, perception_range).contains(p),
{
    let mut visible: Vec<(usize, usize)> = Vec::new();
    let range = perception_range as i32;
    let rs = from.0 as i32 - range;
    let row_start: usize = if rs < 0 { 0 } else { rs as usize };
    let re = from.0 as i32 + range;
    let row_end: usize = if re > world.height as i32 - 1 { (world.height as i32 - 1) as usize } else { re as usize };
    let cs = from.1 as i32 - range;
    let col_start: usize = if cs < 0 { 0 } else { cs as usize };
    let ce = from.1 as i32 + range;
    let col_end: usize = if ce > world.width as i32 - 1 { (world.width as i32 - 1) as usize } else { ce as usize };
    assert(row_start == win_lo(from.0, perception_range));
    assert(row_end == win_hi(from.0, perception_range, world.height));
    assert(col_start == win_lo(from.1, perception_range));
    assert(col_end == win_hi(from.1, perception_range, world.width));
    let ghost vs = visible_set(world.height, world.width, walls(*world), from, perception_range);
    let ghost h = world.height;
    let ghost wd = world.width;
    let mut row = row_start;
    while row <= row_end
        invariant
            row_start <= row,
            row <= row_end + 1 || row == row_start,
            row_end < world.height,
            col_end < world.width,
            h == world.height,
            wd == world.width,
            row_start == win_lo(from.0, perception_range),
            row_end == win_hi(from.0, perception_range, world.height),
            col_start == win_lo(from.1, perception_range),
            col_end == win_hi(from.1, perception_range, world.width),
            vision_fits(world.height, world.width, from, perception_range),
            vs == visible_set(world.height, world.width, walls(*world), from, perception_range),
            row_major(visible@),
            visible@.len() > 0 ==> visible@.last().0 < row,
            forall|p: (usize, usize)| visible@.contains(p) <==> (vs.contains(p) && p.0 < row),
        decreases row_end + 1 - row,
    {
        let mut col = col_start;
        while col <= col_end
            invariant
                row_start <= row <= row_end,
                col_start <= col,
                col <= col_end + 1 || col == col_start,
                row_end < world.height,
                col_end < world.width,
                h == world.height,
                wd == world.width,
                row_start == win_lo(from.0, perception_range),
                row_end == win_hi(from.0, perception_range, world.height),
                col_start == win_lo(from.1, perception_range),
                col_end == win_hi(from.1, perception_range, world.width),
                vision_fits(world.height, world.width, from, perception_range),
                vs == visible_set(world.height, world.width, walls(*world), from, perception_range),
                row_major(visible@),
                visible@.len() > 0 ==> lex_lt(visible@.last(), (row, col)),
                forall|p: (usize, usize)| visible@.contains(p) <==> (vs.contains(p) && lex_lt(p, (row, col))),
            decreases col_end + 1 - col,
        {
            let target = (row, col);
            proof {
                let dr = imax(from.0 - row_start, row_end - from.0);
                let dc = imax(from.1 - col_start, col_end - from.1);
                lemma_sq_mono(from.0 - row, dr);
                lemma_sq_mono(from.1 - col, dc);
            }
            let seen = has_line_of_sight(world, from, target, perception_range);
            let ghost before = visible@;
            if seen {
                visible.push(target);
                assert(row_major(visible@)) by {
                    assert forall|i: int, j: int| 0 <= i < j < visible@.len() implies lex_lt(visible@[i], visible@[j]) by {
                        if j == visible@.len() - 1 && i < j {
                            assert(lex_lt(before[i], before.last()) || i == before.len() - 1);
                        }
                    }
                }
            }
            assert forall|p: (usize, usize)| visible@.contains(p) <==> (vs.contains(p) && lex_lt(p, (row, (col + 1) as usize))) by {
                if seen {
                    if visible@.contains(p) && p != target {
                        let k = choose|k: int| 0 <= k < visible@.len() && visible@[k] == p;
                        assert(before.contains(p)) by {
                            assert(k < before.len());
                            assert(before[k] == p);
                        }
                    }
                    if before.contains(p) {
                        let k = choose|k: int| 0 <= k < before.len() && before[k] == p;
                        assert(visible@[k] == p);
                    }
                    if p == target {
                        assert(visible@[visible@.len() - 1] == p);
                    }
                }
                if p == target {
                    assert(in_window(h, wd, from, perception_range, target));
                    assert(vs.contains(target) == seen);
                    assert(!lex_lt(target, (row, col)));
                    assert(!before.contains(target));
                }
            }
            col = col + 1;
        }
        let ghost r1: int = row + 1;
        assert forall|p: (usize, usize)| visible@.contains(p) <==> (vs.contains(p) && p.0 < r1) by {
            if vs.contains(p) {
                assert(in_window(h, wd, from, perception_range, p));
                assert(p.1 <= col_end);
                if p.0 <= row {
                    assert(lex_lt(p, (row, col)));
                } else {
                    assert(!lex_lt(p, (row, col)));
                }
            }
        }
        assert(visible@.len() > 0 ==> visible@.last().0 < row + 1);
        row = row + 1;
        assert forall|p: (usize, usize)| visible@.contains(p) <==> (vs.contains(p) && p.0 < row) by {
            assert(visible@.contains(p) <==> (vs.contains(p) && p.0 < r1));
        }
    }
    assert forall|p: (usize, usize)| visible@.contains(p) <==> vs.contains(p) by {
        if vs.contains(p) {
            assert(p.0 <= row_end);
        }
    }
    visible
}

} // verus!

verus! {

/// The line from a cell to itself is that cell alone.
pub proof fn lemma_line_to_self(a: (usize, usize))
    ensures
        line_points(a, a) == seq![a],
{
    assert(line_ints(a, a) == seq![(a.0 as int, a.1 as int)]);
    assert(to_cells(seq![(a.0 as int, a.1 as int)]) =~= seq![a]);
}

/// Every cell sees itself, whatever the walls and the range.
pub proof fn lemma_sees_itself(wl: Set<(usize, usize)>, a: (usize, usize), r: usize)
    ensures
        los(wl, a, a, r),
{
    reveal(los);
    lemma_line_to_self(a);
    assert(sq_dist(a, a) == 0);
    assert(0 <= r * r) by (nonlinear_arith);
}

/// Sight never reaches beyond the perception range.
pub proof fn lemma_sight_within_range(wl: Set<(usize, usize)>, a: (usize, usize), b: (usize, usize), r: usize)
    requires
        los(wl, a, b, r),
    ensures
        sq_dist(a, b) <= r * r,
{
    reveal(los);
    lemma_range_symmetric(a, b);

}

/// The perception range is symmetric: `a` is within range of `b` exactly
/// when `b` is within range of `a`.
pub proof fn lemma_range_symmetric(a: (usize, usize), b: (usize, usize))
    ensures
        sq_dist(a, b) == sq_dist(b, a),
{
    assert((a.0 - b.0) * (a.0 - b.0) == (b.0 - a.0) * (b.0 - a.0)) by (nonlinear_arith);
    assert((a.1 - b.1) * (a.1 - b.1) == (b.1 - a.1) * (b.1 - a.1)) by (nonlinear_arith);
}

/// Without walls, sight is the range check alone.
pub proof fn lemma_open_sight(a: (usize, usize), b: (usize, usize), r: usize)
    ensures
        los(Set::empty(), a, b, r) == (sq_dist(a, b) <= r * r),
{
    reveal(los);
    lemma_range_symmetric(a, b);
}

/// A cell of the grid is visible from itself.
pub proof fn lemma_own_cell_visible(height: usize, width: usize, wl: Set<(usize, usize)>, a: (usize, usize), r: usize)
    requires
        a.0 < height,
        a.1 < width,
    ensures
        visible_set(height, width, wl, a, r).contains(a),
{
    lemma_sees_itself(wl, a, r);
}


/// Sight is symmetric: `a` sees `b` exactly when `b` sees `a`, whatever
/// the walls and the range.
pub proof fn lemma_sight_symmetric(wl: Set<(usize, usize)>, a: (usize, usize), b: (usize, usize), r: usize)
    ensures
        los(wl, a, b, r) == los(wl, b, a, r),
{
    reveal(los);
}

/// A longer perception range never hides a cell: what is visible within
/// range `r` is visible within any range `r2 >= r`.
pub proof fn lemma_visible_grows_with_range(
    height: usize,
    width: usize,
    wl: Set<(usize, usize)>,
    from: (usize, usize),
    r: usize,
    r2: usize,
)
    requires
        r <= r2,
    ensures
        visible_set(height, width, wl, from, r).subset_of(visible_set(height, width, wl, from, r2)),
{
    reveal(los);
    assert(r * r <= r2 * r2) by (nonlinear_arith)
        requires
            r <= r2,
    ;
    assert forall|p: (usize, usize)| visible_set(height, width, wl, from, r).contains(p) implies visible_set(
        height,
        width,
        wl,
        from,
        r2,
    ).contains(p) by {
        lemma_range_symmetric(from, p);
    }
}

} // verus!
