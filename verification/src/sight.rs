//! Line of sight (a Bresenham walk that walls interrupt) and the field of
//! view around the player.
use vstd::prelude::*;

use crate::game::{cell, floor_in, in_grid, lemma_cell_pos, lemma_pos_cell, pos_of, Game, GameView, Tile, CELLS, HEIGHT, WIDTH};
use crate::geom::{abs, Pos};

verus! {

/// The Bresenham walk from `(ax, ay)` towards `(bx, by)`, currently at
/// `(x, y)` with error term `err`: true when it reaches the end without
/// passing a non-floor tile. The start and the end themselves are not
/// checked. `fuel` bounds the number of steps.
pub open spec fn walk(
    tiles: Seq<Tile>,
    ax: int,
    ay: int,
    bx: int,
    by: int,
    x: int,
    y: int,
    err: int,
    fuel: nat,
) -> bool
    decreases fuel,
{
    let dx = abs(bx - ax);
    let dy = -abs(by - ay);
    let sx: int = if ax < bx { 1 } else { -1 };
    let sy: int = if ay < by { 1 } else { -1 };
    if x == bx && y == by {
        true
    } else if fuel == 0 {
        false
    } else if (x != ax || y != ay) && !floor_in(tiles, x, y) {
        false
    } else {
        let e = 2 * err;
        let err1 = if e >= dy { err + dy } else { err };
        let x1 = if e >= dy { x + sx } else { x };
        let err2 = if e <= dx { err1 + dx } else { err1 };
        let y1 = if e <= dx { y + sy } else { y };
        walk(tiles, ax, ay, bx, by, x1, y1, err2, (fuel - 1) as nat)
    }
}

/// Nothing but floor lies strictly between `a` and `b` on the Bresenham line.
pub open spec fn clear_line(tiles: Seq<Tile>, a: Pos, b: Pos) -> bool {
    let dx = abs(b.x - a.x);
    let dy = -abs(b.y - a.y);
    walk(tiles, a.x as int, a.y as int, b.x as int, b.y as int, a.x as int, a.y as int, dx + dy, (dx - dy) as nat)
}

/// `(x, y)` is seen from `from` with sight radius `r`.
pub open spec fn in_view(tiles: Seq<Tile>, from: Pos, r: int, x: int, y: int) -> bool {
    &&& r >= 0
    &&& in_grid(x, y)
    &&& (x - from.x) * (x - from.x) + (y - from.y) * (y - from.y) <= r * r
    &&& clear_line(tiles, from, Pos { x: x as i32, y: y as i32 })
}

/// Tile `i` is seen by the player of `g` with radius `r`.
pub open spec fn sees_cell(g: GameView, r: int, i: int) -> bool {
    0 <= i < CELLS && in_view(g.tiles, g.player, r, pos_of(i).x as int, pos_of(i).y as int)
}

/// The state after recomputing the field of view with radius `r`: exactly
/// the tiles in view are visible, and they join the explored map.
pub open spec fn with_view(g: GameView, r: int) -> GameView {
    GameView {
        visible: Seq::new(g.visible.len(), |i: int| sees_cell(g, r, i)),
        seen: Seq::new(g.seen.len(), |i: int| g.seen[i] || sees_cell(g, r, i)),
        ..g
    }
}

proof fn lemma_no_overshoot(dx: int, d: int, x: int, y: int)
    requires
        0 <= dx,
        0 <= d,
        0 <= x <= dx,
        0 <= y <= d,
        !(x == dx && y == d),
    ensures
        x == dx ==> 2 * (dx * (1 + y) - d * (1 + x)) < -d,
        y == d ==> 2 * (dx * (1 + y) - d * (1 + x)) > dx,
{
    if x == dx {
        assert(2 * (dx * (1 + y) - d * (1 + x)) < -d) by (nonlinear_arith)
            requires
                0 <= dx,
                0 <= y < d,
                x == dx,
        ;
    }
    if y == d {
        assert(2 * (dx * (1 + y) - d * (1 + x)) > dx) by (nonlinear_arith)
            requires
                0 <= d,
                0 <= x < dx,
                y == d,
        ;
    }
}

proof fn lemma_err_bound(dx: int, d: int, x: int, y: int)
    requires
        0 <= dx <= 0x1_0000_0000,
        0 <= d <= 0x1_0000_0000,
        0 <= x <= dx,
        0 <= y <= d,
    ensures
        -0x4_0000_0000_0000_0000 <= dx * (1 + y) - d * (1 + x) <= 0x4_0000_0000_0000_0000,
{
    assert(0 <= dx * (1 + y) <= 0x1_0000_0000 * 0x1_0000_0001) by (nonlinear_arith)
        requires
            0 <= dx <= 0x1_0000_0000,
            0 <= y <= 0x1_0000_0000,
    ;
    assert(0 <= d * (1 + x) <= 0x1_0000_0000 * 0x1_0000_0001) by (nonlinear_arith)
        requires
            0 <= d <= 0x1_0000_0000,
            0 <= x <= 0x1_0000_0000,
    ;
}

impl Game {
    /// Whether the straight (Bresenham) line from `a` to `b` passes only
    /// over floor. The end points themselves do not block.
    pub fn line_clear(&self, a: Pos, b: Pos) -> (r: bool)
        requires
            self.tiles@.len() >= CELLS,
        ensures
            r == clear_line(self@.tiles, a, b),
    {
        let ax: i128 = a.x as i128;
        let ay: i128 = a.y as i128;
        let bx: i128 = b.x as i128;
        let by: i128 = b.y as i128;
        let dx: i128 = if bx - ax < 0 { ax - bx } else { bx - ax };
        let ddy: i128 = if by - ay < 0 { ay - by } else { by - ay };
        let dy: i128 = -ddy;
        let sx: i128 = if ax < bx { 1 } else { -1 };
        let sy: i128 = if ay < by { 1 } else { -1 };
        let mut x: i128 = ax;
        let mut y: i128 = ay;
        let mut err: i128 = dx + dy;
        let ghost mut fuel: nat = (dx - dy) as nat;
        let ghost mut cx: int = 0;
        let ghost mut cy: int = 0;
        assert(err == dx * (1 + cy) - ddy * (1 + cx)) by (nonlinear_arith)
            requires
                cx == 0,
                cy == 0,
                err == dx - ddy,
        ;
        loop
            invariant
                dx == abs(bx - ax),
                dy == -abs(by - ay),
                ddy == -dy,
                0 <= dx <= 0x1_0000_0000,
                0 <= ddy <= 0x1_0000_0000,
                sx == (if ax < bx { 1int } else { -1int }),
                sy == (if ay < by { 1int } else { -1int }),
                ax == a.x,
                ay == a.y,
                bx == b.x,
                by == b.y,
                0 <= cx <= dx,
                0 <= cy <= ddy,
                x == (if ax < bx { ax + cx } else { ax - cx }),
                y == (if ay < by { ay + cy } else { ay - cy }),
                err == dx * (1 + cy) - ddy * (1 + cx),
                fuel >= (dx - cx) + (ddy - cy),
                self.tiles@.len() >= CELLS,
                walk(self@.tiles, ax as int, ay as int, bx as int, by as int, x as int, y as int, err as int, fuel)
                    == clear_line(self@.tiles, a, b),
            decreases fuel,
        {
            proof {
                if cx == dx && cy == ddy {
                    assert(x == bx && y == by);
                }
            }
            if x == bx && y == by {
                return true;
            }
            proof {
                assert(!(cx == dx && cy == ddy));
                lemma_no_overshoot(dx as int, ddy as int, cx, cy);
                lemma_err_bound(dx as int, ddy as int, cx, cy);
                assert(fuel > 0);
            }
            assert(i32::MIN <= x <= i32::MAX && i32::MIN <= y <= i32::MAX);
            if (x != ax || y != ay) && !self.floor(Pos { x: x as i32, y: y as i32 }) {
                return false;
            }
            let e: i128 = 2 * err;
            if e >= dy {
                proof {
                    assert(ddy * (1 + (cx + 1)) == ddy * (1 + cx) + ddy) by (nonlinear_arith);
                }
                err = err + dy;
                x = x + sx;
                proof { cx = cx + 1; }
            }
            if e <= dx {
                proof {
                    assert(dx * (1 + (cy + 1)) == dx * (1 + cy) + dx) by (nonlinear_arith);
                }
                err = err + dx;
                y = y + sy;
                proof { cy = cy + 1; }
            }
            proof {
                fuel = (fuel - 1) as nat;
            }
        }
    }

    /// Recompute what the player sees with sight radius `radius`; everything
    /// in view joins the explored map.
    pub fn update_visibility(&mut self, radius: i32)
        requires
            old(self)@.sized(),
        ensures
            final(self)@ == with_view(old(self)@, radius as int),
    {
        let ghost g0 = self@;
        let mut k: usize = 0;
        while k < self.visible.len()
            invariant
                k <= self.visible@.len(),
                self.visible@.len() == g0.visible.len(),
                self@ == (GameView { visible: self@.visible, ..g0 }),
                forall|j: int| 0 <= j < k ==> self.visible@[j] == false,
            decreases self.visible@.len() - k,
        {
            self.visible.set(k, false);
            k = k + 1;
        }
        let px: i128 = self.player.x as i128;
        let py: i128 = self.player.y as i128;
        let r: i128 = radius as i128;
        let y0: i128 = if py - r > 0 { py - r } else { 0 };
        let y1: i128 = if py + r < (HEIGHT - 1) as i128 { py + r } else { (HEIGHT - 1) as i128 };
        let x0: i128 = if px - r > 0 { px - r } else { 0 };
        let x1: i128 = if px + r < (WIDTH - 1) as i128 { px + r } else { (WIDTH - 1) as i128 };
        let ghost target = with_view(g0, radius as int);
        assert forall|yy: int, xx: int|
            in_grid(xx, yy) && !(y0 <= yy <= y1 && x0 <= xx <= x1) implies !in_view(
            g0.tiles,
            g0.player,
            radius as int,
            xx,
            yy,
        ) by {
            if in_view(g0.tiles, g0.player, radius as int, xx, yy) {
                let ddx = xx - px;
                let ddy = yy - py;
                assert(-r <= ddx <= r && -r <= ddy <= r) by (nonlinear_arith)
                    requires
                        r >= 0,
                        ddx * ddx + ddy * ddy <= r * r,
                ;
            }
        }
        let mut y: i128 = y0;
        while y <= y1
            invariant
                0 <= y0,
                y1 <= HEIGHT - 1,
                y0 >= py - r,
                y1 <= py + r,
                0 <= x0,
                x1 <= WIDTH - 1,
                y0 <= y,
                y <= y1 + 1 || y == y0,
                px == g0.player.x,
                py == g0.player.y,
                r == radius,
                self@.sized(),
                self.visible@.len() == g0.visible.len(),
                self.seen@.len() == g0.seen.len(),
                self@ == (GameView { visible: self@.visible, seen: self@.seen, ..g0 }),
                forall|j: int| CELLS <= j < self.visible@.len() ==> self.visible@[j] == false,
                forall|j: int| CELLS <= j < self.seen@.len() ==> self.seen@[j] == g0.seen[j],
                forall|xx: int, yy: int|
                    in_grid(xx, yy) ==> #[trigger] self.visible@[cell(xx, yy)] == (yy < y && in_view(
                        g0.tiles,
                        g0.player,
                        radius as int,
                        xx,
                        yy,
                    )),
                forall|xx: int, yy: int|
                    in_grid(xx, yy) ==> #[trigger] self.seen@[cell(xx, yy)] == (g0.seen[cell(xx, yy)] || (yy
                        < y && in_view(g0.tiles, g0.player, radius as int, xx, yy))),
                forall|yy: int, xx: int|
                    in_grid(xx, yy) && !(y0 <= yy <= y1 && x0 <= xx <= x1) ==> !in_view(
                        g0.tiles,
                        g0.player,
                        radius as int,
                        xx,
                        yy,
                    ),
            decreases y1 + 1 - y,
        {
            let mut x: i128 = x0;
            while x <= x1
                invariant
                    0 <= y0 <= y <= y1,
                    y1 <= HEIGHT - 1,
                    y0 >= py - r,
                    y1 <= py + r,
                    0 <= x0 <= x,
                    x1 <= WIDTH - 1,
                    x <= x1 + 1 || x == x0,
                    px == g0.player.x,
                    py == g0.player.y,
                    r == radius,
                    self@.sized(),
                    self.visible@.len() == g0.visible.len(),
                    self.seen@.len() == g0.seen.len(),
                    self@ == (GameView { visible: self@.visible, seen: self@.seen, ..g0 }),
                    forall|j: int| CELLS <= j < self.visible@.len() ==> self.visible@[j] == false,
                    forall|j: int| CELLS <= j < self.seen@.len() ==> self.seen@[j] == g0.seen[j],
                    forall|xx: int, yy: int|
                        in_grid(xx, yy) ==> #[trigger] self.visible@[cell(xx, yy)] == ((yy < y || (yy == y && xx
                            < x)) && in_view(g0.tiles, g0.player, radius as int, xx, yy)),
                    forall|xx: int, yy: int|
                        in_grid(xx, yy) ==> #[trigger] self.seen@[cell(xx, yy)] == (g0.seen[cell(xx, yy)] || ((yy
                            < y || (yy == y && xx < x)) && in_view(
                            g0.tiles,
                            g0.player,
                            radius as int,
                            xx,
                            yy,
                        ))),
                    forall|yy: int, xx: int|
                        in_grid(xx, yy) && !(y0 <= yy <= y1 && x0 <= xx <= x1) ==> !in_view(
                            g0.tiles,
                            g0.player,
                            radius as int,
                            xx,
                            yy,
                        ),
                decreases x1 + 1 - x,
            {
                let ddx: i128 = x - px;
                let ddy: i128 = y - py;
                assert(0 <= ddx * ddx <= 0x1_0000_0000_0000_0000 && 0 <= ddy * ddy <= 0x1_0000_0000_0000_0000) by (nonlinear_arith)
                    requires
                        -0x1_0000_0000 <= ddx <= 0x1_0000_0000,
                        -0x1_0000_0000 <= ddy <= 0x1_0000_0000,
                ;
                assert(0 <= r * r <= 0x4_0000_0000_0000_0000) by (nonlinear_arith)
                    requires
                        -0x1_0000_0000 <= r <= 0x1_0000_0000,
                ;
                let p = Pos { x: x as i32, y: y as i32 };
                let seen_now = ddx * ddx + ddy * ddy <= r * r && self.line_clear(self.player, p);
                proof {
                    lemma_cell_pos(x as int, y as int);
                    assert(seen_now == in_view(g0.tiles, g0.player, radius as int, x as int, y as int));
                }
                let i: usize = (y * (WIDTH as i128) + x) as usize;
                if seen_now {
                    self.visible.set(i, true);
                    self.seen.set(i, true);
                }
                proof {
                    assert forall|xx: int, yy: int| in_grid(xx, yy) implies #[trigger] self.visible@[cell(
                        xx,
                        yy,
                    )] == ((yy < y || (yy == y && xx < x + 1)) && in_view(
                        g0.tiles,
                        g0.player,
                        radius as int,
                        xx,
                        yy,
                    )) by {
                        lemma_cell_pos(xx, yy);
                    }
                    assert forall|xx: int, yy: int| in_grid(xx, yy) implies #[trigger] self.seen@[cell(
                        xx,
                        yy,
                    )] == (g0.seen[cell(xx, yy)] || ((yy < y || (yy == y && xx < x + 1)) && in_view(
                        g0.tiles,
                        g0.player,
                        radius as int,
                        xx,
                        yy,
                    ))) by {
                        lemma_cell_pos(xx, yy);
                    }
                }
                x = x + 1;
            }
            y = y + 1;
        }
        proof {
            assert forall|i: int| 0 <= i < self.visible@.len() implies self.visible@[i] == target.visible[i] by {
                if i < CELLS {
                    lemma_pos_cell(i);
                }
            }
            assert forall|i: int| 0 <= i < self.seen@.len() implies self.seen@[i] == target.seen[i] by {
                if i < CELLS {
                    lemma_pos_cell(i);
                }
            }
            assert(self.visible@ =~= target.visible);
            assert(self.seen@ =~= target.seen);
        }
    }
}

} // verus!
