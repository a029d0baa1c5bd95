//! Shortest routes over the explored map: a breadth-first search that only
//! walks discovered floor.
use vstd::prelude::*;

use crate::game::{cell, in_grid, in_map, lemma_cell_pos, lemma_pos_cell, pos_of, Game, GameView, CELLS};
use crate::geom::{abs, manhattan, Pos};

verus! {

/// `(x, y)` is explored floor: a tile a known route may use.
pub open spec fn known(g: GameView, x: int, y: int) -> bool {
    in_grid(x, y) && g.floor_at(x, y) && g.seen[cell(x, y)]
}

/// `(x, y)` can be reached from the player in at most `k` steps over
/// explored floor.
pub open spec fn reach(g: GameView, x: int, y: int, k: int) -> bool
    decreases k,
{
    if k < 0 {
        false
    } else if k == 0 {
        x == g.player.x && y == g.player.y
    } else {
        reach(g, x, y, k - 1) || (known(g, x, y) && (reach(g, x + 1, y, k - 1) || reach(g, x - 1, y, k - 1)
            || reach(g, x, y + 1, k - 1) || reach(g, x, y - 1, k - 1)))
    }
}

/// `path` leads from the player to `target` in orthogonal steps, every tile
/// after the start being explored floor.
pub open spec fn is_route(g: GameView, path: Seq<Pos>, target: Pos) -> bool {
    &&& path.len() >= 1
    &&& path[0] == g.player
    &&& path.last() == target
    &&& forall|i: int|
        1 <= i < path.len() ==> known(g, path[i].x as int, path[i].y as int) && manhattan(
            path[i - 1],
            #[trigger] path[i],
        ) == 1
}

/// Some cell of the first `n` of `f` is orthogonally adjacent to `(x, y)`.
pub open spec fn near(f: Seq<Pos>, n: int, x: int, y: int) -> bool
    decreases n,
{
    if n <= 0 {
        false
    } else {
        near(f, n - 1, x, y) || abs(f[n - 1].x - x) + abs(f[n - 1].y - y) == 1
    }
}

/// Neighbour `d` of `u`, in the order east, west, south, north.
pub open spec fn nb_x(u: Pos, d: int) -> int {
    if d == 0 {
        u.x + 1
    } else if d == 1 {
        u.x - 1
    } else {
        u.x as int
    }
}

pub open spec fn nb_y(u: Pos, d: int) -> int {
    if d == 2 {
        u.y + 1
    } else if d == 3 {
        u.y - 1
    } else {
        u.y as int
    }
}

/// `(x, y)` is one of the first `d` neighbours of `u`.
pub open spec fn near_dirs(u: Pos, d: int, x: int, y: int) -> bool
    decreases d,
{
    if d <= 0 {
        false
    } else {
        near_dirs(u, d - 1, x, y) || (nb_x(u, d - 1) == x && nb_y(u, d - 1) == y)
    }
}

proof fn lemma_near_dirs_all(u: Pos, x: int, y: int)
    ensures
        near_dirs(u, 4, x, y) == (abs(u.x - x) + abs(u.y - y) == 1),
{
    reveal_with_fuel(near_dirs, 5);
}

proof fn lemma_near_witness(f: Seq<Pos>, n: int, x: int, y: int)
    requires
        near(f, n, x, y),
    ensures
        exists|j: int| 0 <= j < n && abs(f[j].x - x) + abs(f[j].y - y) == 1,
    decreases n,
{
    if n > 0 {
        if near(f, n - 1, x, y) {
            lemma_near_witness(f, n - 1, x, y);
        } else {
            assert(abs(f[n - 1].x - x) + abs(f[n - 1].y - y) == 1);
        }
    }
}

proof fn lemma_near_from(f: Seq<Pos>, n: int, j: int, x: int, y: int)
    requires
        0 <= j < n,
        abs(f[j].x - x) + abs(f[j].y - y) == 1,
    ensures
        near(f, n, x, y),
    decreases n,
{
    if j < n - 1 {
        lemma_near_from(f, n - 1, j, x, y);
    }
}

/// Reach grows with the step budget.
pub proof fn lemma_reach_mono(g: GameView, x: int, y: int, j: int, k: int)
    requires
        j <= k,
        reach(g, x, y, j),
    ensures
        reach(g, x, y, k),
    decreases k - j,
{
    if j < k {
        lemma_reach_mono(g, x, y, j, k - 1);
        assert(reach(g, x, y, k));
    }
}

/// Only the player's own tile and explored floor are ever reached.
pub proof fn lemma_reach_known(g: GameView, x: int, y: int, k: int)
    requires
        reach(g, x, y, k),
        !(x == g.player.x && y == g.player.y),
    ensures
        known(g, x, y),
    decreases k,
{
    if k > 0 && reach(g, x, y, k - 1) {
        lemma_reach_known(g, x, y, k - 1);
    }
}

/// One step from a reached tile onto explored floor is reached too.
proof fn lemma_reach_step(g: GameView, ux: int, uy: int, x: int, y: int, k: int)
    requires
        reach(g, ux, uy, k),
        known(g, x, y),
        abs(ux - x) + abs(uy - y) == 1,
        k >= 0,
    ensures
        reach(g, x, y, k + 1),
{
}

proof fn lemma_prefix_reach(g: GameView, path: Seq<Pos>, target: Pos, i: int)
    requires
        is_route(g, path, target),
        0 <= i < path.len(),
    ensures
        reach(g, path[i].x as int, path[i].y as int, i),
    decreases i,
{
    if i > 0 {
        lemma_prefix_reach(g, path, target, i - 1);
        let u = path[i - 1];
        let v = path[i];
        assert(known(g, v.x as int, v.y as int) && manhattan(u, v) == 1);
        lemma_reach_step(g, u.x as int, u.y as int, v.x as int, v.y as int, i - 1);
    }
}

/// A route of `n` tiles reaches its target within `n - 1` steps.
pub proof fn lemma_route_reach(g: GameView, path: Seq<Pos>, target: Pos)
    requires
        is_route(g, path, target),
    ensures
        reach(g, target.x as int, target.y as int, path.len() - 1),
{
    lemma_prefix_reach(g, path, target, path.len() - 1);
}

/// Once a budget adds nothing new, no larger budget does either.
proof fn lemma_reach_stable(g: GameView, k: int, m: int)
    requires
        k >= 0,
        k <= m,
        forall|x: int, y: int| #[trigger] reach(g, x, y, k + 1) == reach(g, x, y, k),
    ensures
        forall|x: int, y: int| #[trigger] reach(g, x, y, m) == reach(g, x, y, k),
    decreases m - k,
{
    if m > k {
        lemma_reach_stable(g, k, m - 1);
        assert forall|x: int, y: int| #[trigger] reach(g, x, y, m) == reach(g, x, y, k) by {
            assert(reach(g, x, y, m - 1) == reach(g, x, y, k));
            assert(reach(g, x + 1, y, m - 1) == reach(g, x + 1, y, k));
            assert(reach(g, x - 1, y, m - 1) == reach(g, x - 1, y, k));
            assert(reach(g, x, y + 1, m - 1) == reach(g, x, y + 1, k));
            assert(reach(g, x, y - 1, m - 1) == reach(g, x, y - 1, k));
            assert(reach(g, x, y, k + 1) == reach(g, x, y, k));
        }
    }
}

/// A predecessor recorded by the search: one step before `(x, y)`, reached
/// one step earlier.
pub open spec fn good_prev(g: GameView, dist: Seq<i64>, u: Pos, x: int, y: int, d: int) -> bool {
    &&& abs(u.x - x) + abs(u.y - y) == 1
    &&& (u == g.player || (in_map(u) && dist[cell(u.x as int, u.y as int)] == d - 1))
    &&& reach(g, u.x as int, u.y as int, d - 1)
}

/// The labels of a finished layer `k`: explored-floor distances from the
/// player for everything within `k` steps, with predecessors.
#[verifier::opaque]
pub open spec fn labels_ok(g: GameView, dist: Seq<i64>, prev: Seq<Pos>, k: int) -> bool {
    &&& dist.len() == CELLS
    &&& prev.len() == CELLS
    &&& forall|x: int, y: int|
        in_grid(x, y) ==> ((#[trigger] dist[cell(x, y)] >= 0) == reach(g, x, y, k))
    &&& forall|x: int, y: int|
        in_grid(x, y) && #[trigger] dist[cell(x, y)] >= 0 ==> {
            &&& dist[cell(x, y)] <= k
            &&& reach(g, x, y, dist[cell(x, y)] as int)
            &&& !reach(g, x, y, dist[cell(x, y)] - 1)
            &&& dist[cell(x, y)] == 0 ==> x == g.player.x && y == g.player.y
            &&& dist[cell(x, y)] > 0 ==> known(g, x, y) && good_prev(
                g,
                dist,
                prev[cell(x, y)],
                x,
                y,
                dist[cell(x, y)] as int,
            )
        }
}

/// Nothing within a budget that adds nothing new: no route at all.
proof fn lemma_no_route(g: GameView, target: Pos, k: int)
    requires
        k >= 1,
        !reach(g, target.x as int, target.y as int, k),
        forall|x: int, y: int| #[trigger] reach(g, x, y, k) == reach(g, x, y, k - 1),
    ensures
        forall|p: Seq<Pos>| !is_route(g, p, target),
{
    assert forall|p: Seq<Pos>| !is_route(g, p, target) by {
        if is_route(g, p, target) {
            lemma_route_reach(g, p, target);
            let m = p.len() - 1;
            if m <= k {
                lemma_reach_mono(g, target.x as int, target.y as int, m, k);
            } else {
                lemma_reach_stable(g, k - 1, m);
                lemma_reach_mono(g, target.x as int, target.y as int, k - 1, k);
            }
        }
    }
}

/// A target not reached within `dt - 1` steps has no shorter route.
proof fn lemma_shortest(g: GameView, target: Pos, dt: int)
    requires
        !reach(g, target.x as int, target.y as int, dt - 1),
    ensures
        forall|p: Seq<Pos>| is_route(g, p, target) ==> dt + 1 <= p.len(),
{
    assert forall|p: Seq<Pos>| is_route(g, p, target) implies dt + 1 <= p.len() by {
        lemma_route_reach(g, p, target);
        let m = p.len() - 1;
        if m < dt {
            lemma_reach_mono(g, target.x as int, target.y as int, m, dt - 1);
        }
    }
}

/// What the labels of a finished layer say of one tile.
proof fn lemma_label_facts(g: GameView, dist: Seq<i64>, prev: Seq<Pos>, k: int, x: int, y: int)
    requires
        labels_ok(g, dist, prev, k),
        in_grid(x, y),
    ensures
        dist.len() == CELLS,
        prev.len() == CELLS,
        (dist[cell(x, y)] >= 0) == reach(g, x, y, k),
        dist[cell(x, y)] >= 0 ==> {
            &&& dist[cell(x, y)] <= k
            &&& reach(g, x, y, dist[cell(x, y)] as int)
            &&& !reach(g, x, y, dist[cell(x, y)] - 1)
            &&& dist[cell(x, y)] == 0 ==> x == g.player.x && y == g.player.y
            &&& dist[cell(x, y)] > 0 ==> known(g, x, y) && good_prev(
                g,
                dist,
                prev[cell(x, y)],
                x,
                y,
                dist[cell(x, y)] as int,
            )
        },
{
    reveal(labels_ok);
}

/// Tiles labelled so far.
pub open spec fn vset(dist: Seq<i64>) -> Set<int> {
    Set::new(|i: int| 0 <= i < CELLS && dist[i] >= 0)
}

proof fn lemma_vset_bound(dist: Seq<i64>)
    ensures
        vset(dist).finite(),
        vset(dist).len() <= CELLS,
{
    vstd::set_lib::range_set_properties::<int>(0, CELLS as int);
    assert(vset(dist).subset_of(Set::<int>::range(0, CELLS as int)));
    vstd::set_lib::lemma_len_subset(vset(dist), Set::<int>::range(0, CELLS as int));
}

proof fn lemma_vset_insert(dist: Seq<i64>, i: int, v: i64)
    requires
        0 <= i < CELLS,
        dist.len() == CELLS,
        dist[i] < 0,
        v >= 0,
    ensures
        vset(dist.update(i, v)).len() == vset(dist).len() + 1,
{
    lemma_vset_bound(dist);
    assert(vset(dist.update(i, v)) =~= vset(dist).insert(i));
}

/// The state of the search while layer `k` (`f`) is expanded: tiles already
/// within `k` steps keep their labels, and the new ones (within `k + 1`) are
/// exactly the unlabelled explored-floor neighbours of the frontier tiles
/// handled so far (the first `fi` tiles, and the first `d` neighbours of
/// tile `fi`), each labelled `k + 1` with a predecessor and queued in `next`.
#[verifier::opaque]
pub open spec fn layer_ok(
    g: GameView,
    d0: Seq<i64>,
    p0: Seq<Pos>,
    k: int,
    f: Seq<Pos>,
    fi: int,
    d: int,
    dist: Seq<i64>,
    prev: Seq<Pos>,
    next: Seq<Pos>,
) -> bool {
    &&& labels_ok(g, d0, p0, k)
    &&& dist.len() == CELLS
    &&& prev.len() == CELLS
    &&& forall|x: int, y: int|
        in_grid(x, y) ==> ((#[trigger] dist[cell(x, y)] >= 0) == (reach(g, x, y, k) || (known(g, x, y) && (
        near(f, fi, x, y) || (fi < f.len() && near_dirs(f[fi], d, x, y))))))
    &&& forall|x: int, y: int|
        in_grid(x, y) && reach(g, x, y, k) ==> #[trigger] dist[cell(x, y)] == d0[cell(x, y)] && prev[cell(x, y)]
            == p0[cell(x, y)]
    &&& forall|x: int, y: int|
        in_grid(x, y) && #[trigger] dist[cell(x, y)] >= 0 && !reach(g, x, y, k) ==> {
            &&& dist[cell(x, y)] == k + 1
            &&& known(g, x, y)
            &&& good_prev(g, dist, prev[cell(x, y)], x, y, k + 1)
            &&& next.contains(Pos { x: x as i32, y: y as i32 })
        }
    &&& forall|i: int|
        0 <= i < next.len() ==> in_map(#[trigger] next[i]) && dist[cell(next[i].x as int, next[i].y as int)]
            == k + 1 && !reach(g, next[i].x as int, next[i].y as int, k)
}

/// Frontier `f` of layer `k`: exactly the tiles first reached in `k` steps.
pub open spec fn frontier_ok(g: GameView, f: Seq<Pos>, k: int) -> bool {
    &&& forall|i: int|
        0 <= i < f.len() ==> reach(g, #[trigger] f[i].x as int, f[i].y as int, k) && (k > 0 ==> !reach(
            g,
            f[i].x as int,
            f[i].y as int,
            k - 1,
        ))
    &&& forall|x: int, y: int|
        #[trigger] reach(g, x, y, k) && (k == 0 || !reach(g, x, y, k - 1)) ==> f.contains(
            Pos { x: x as i32, y: y as i32 },
        )
    &&& forall|x: int, y: int|
        #[trigger] reach(g, x, y, k) ==> (in_grid(x, y) || (x == g.player.x && y == g.player.y))
}

proof fn lemma_layer_next_dir(
    g: GameView,
    d0: Seq<i64>,
    p0: Seq<Pos>,
    k: int,
    f: Seq<Pos>,
    fi: int,
    dist: Seq<i64>,
    prev: Seq<Pos>,
    next: Seq<Pos>,
)
    requires
        0 <= fi < f.len(),
        layer_ok(g, d0, p0, k, f, fi, 4, dist, prev, next),
    ensures
        layer_ok(g, d0, p0, k, f, fi + 1, 0, dist, prev, next),
{
    reveal(layer_ok);
    assert forall|x: int, y: int| in_grid(x, y) implies ((#[trigger] dist[cell(x, y)] >= 0) == (reach(
        g,
        x,
        y,
        k,
    ) || (known(g, x, y) && (near(f, fi + 1, x, y) || (fi + 1 < f.len() && near_dirs(f[fi + 1], 0, x, y)))))) by {
        lemma_near_dirs_all(f[fi], x, y);
    }
}

/// A tile first reached in `k + 1` steps lies next to the frontier.
proof fn lemma_new_is_near(g: GameView, f: Seq<Pos>, k: int, x: int, y: int)
    requires
        k >= 0,
        frontier_ok(g, f, k),
        reach(g, x, y, k + 1),
        !reach(g, x, y, k),
    ensures
        known(g, x, y),
        near(f, f.len() as int, x, y),
{
    if reach(g, x + 1, y, k) {
        lemma_near_one(g, f, k, x, y, x + 1, y);
    } else if reach(g, x - 1, y, k) {
        lemma_near_one(g, f, k, x, y, x - 1, y);
    } else if reach(g, x, y + 1, k) {
        lemma_near_one(g, f, k, x, y, x, y + 1);
    } else {
        lemma_near_one(g, f, k, x, y, x, y - 1);
    }
}

proof fn lemma_near_one(g: GameView, f: Seq<Pos>, k: int, x: int, y: int, wx: int, wy: int)
    requires
        k >= 0,
        frontier_ok(g, f, k),
        reach(g, wx, wy, k),
        known(g, x, y),
        abs(wx - x) + abs(wy - y) == 1,
        !reach(g, x, y, k),
    ensures
        near(f, f.len() as int, x, y),
{
    if k > 0 && reach(g, wx, wy, k - 1) {
        lemma_reach_step(g, wx, wy, x, y, k - 1);
    } else {
        assert(reach(g, wx, wy, k) && (k == 0 || !reach(g, wx, wy, k - 1)));
        assert(f.contains(Pos { x: wx as i32, y: wy as i32 }));
        let j = choose|j: int| 0 <= j < f.len() && f[j] == Pos { x: wx as i32, y: wy as i32 };
        assert(in_grid(wx, wy) || (wx == g.player.x && wy == g.player.y));
        lemma_near_from(f, f.len() as int, j, x, y);
    }
}

/// Finishing the expansion of layer `k` yields the labels of layer `k + 1`
/// and its frontier.
proof fn lemma_layer_done(
    g: GameView,
    d0: Seq<i64>,
    p0: Seq<Pos>,
    k: int,
    f: Seq<Pos>,
    dist: Seq<i64>,
    prev: Seq<Pos>,
    next: Seq<Pos>,
)
    requires
        k >= 0,
        frontier_ok(g, f, k),
        layer_ok(g, d0, p0, k, f, f.len() as int, 0, dist, prev, next),
    ensures
        labels_ok(g, dist, prev, k + 1),
        frontier_ok(g, next, k + 1),
        next.len() == 0 ==> forall|x: int, y: int| #[trigger] reach(g, x, y, k + 1) == reach(g, x, y, k),
{
    reveal(layer_ok);
    reveal(labels_ok);
    assert forall|x: int, y: int| in_grid(x, y) implies ((#[trigger] dist[cell(x, y)] >= 0) == reach(
        g,
        x,
        y,
        k + 1,
    )) by {
        if known(g, x, y) && near(f, f.len() as int, x, y) {
            lemma_near_witness(f, f.len() as int, x, y);
            let j = choose|j: int| 0 <= j < f.len() && abs(f[j].x - x) + abs(f[j].y - y) == 1;
            lemma_reach_step(g, f[j].x as int, f[j].y as int, x, y, k);
        }
        if reach(g, x, y, k + 1) && !reach(g, x, y, k) {
            lemma_new_is_near(g, f, k, x, y);
        }
    }
    assert forall|x: int, y: int| in_grid(x, y) && #[trigger] dist[cell(x, y)] >= 0 implies {
        &&& dist[cell(x, y)] <= k + 1
        &&& reach(g, x, y, dist[cell(x, y)] as int)
        &&& !reach(g, x, y, dist[cell(x, y)] - 1)
        &&& dist[cell(x, y)] == 0 ==> x == g.player.x && y == g.player.y
        &&& dist[cell(x, y)] > 0 ==> known(g, x, y) && good_prev(
            g,
            dist,
            prev[cell(x, y)],
            x,
            y,
            dist[cell(x, y)] as int,
        )
    } by {
        if reach(g, x, y, k) {
            assert(dist[cell(x, y)] == d0[cell(x, y)]);
            assert(d0[cell(x, y)] >= 0);
            if d0[cell(x, y)] > 0 {
                let up = p0[cell(x, y)];
                assert(good_prev(g, d0, up, x, y, d0[cell(x, y)] as int));
                if up != g.player {
                    lemma_cell_pos(up.x as int, up.y as int);
                    lemma_reach_mono(g, up.x as int, up.y as int, d0[cell(x, y)] - 1, k);
                    assert(dist[cell(up.x as int, up.y as int)] == d0[cell(up.x as int, up.y as int)]);
                }
            }
        } else {
            assert(reach(g, x, y, k + 1));
        }
    }
    assert forall|i: int| 0 <= i < next.len() implies reach(g, #[trigger] next[i].x as int, next[i].y as int, k + 1)
        && (k + 1 > 0 ==> !reach(g, next[i].x as int, next[i].y as int, k)) by {
        lemma_cell_pos(next[i].x as int, next[i].y as int);
    }
    assert forall|x: int, y: int|
        #[trigger] reach(g, x, y, k + 1) && (k + 1 == 0 || !reach(g, x, y, k)) implies next.contains(
        Pos { x: x as i32, y: y as i32 },
    ) by {
        if in_grid(x, y) {
            lemma_cell_pos(x, y);
            assert(dist[cell(x, y)] >= 0);
        } else {
            assert(reach(g, x, y, 0));
            lemma_reach_mono(g, x, y, 0, k);
        }
    }
    assert forall|x: int, y: int| #[trigger] reach(g, x, y, k + 1) implies (in_grid(x, y) || (x == g.player.x
        && y == g.player.y)) by {
        if !(x == g.player.x && y == g.player.y) {
            lemma_reach_known(g, x, y, k + 1);
        }
    }
    if next.len() == 0 {
        assert forall|x: int, y: int| #[trigger] reach(g, x, y, k + 1) == reach(g, x, y, k) by {
            if reach(g, x, y, k + 1) && !reach(g, x, y, k) {
                assert(next.contains(Pos { x: x as i32, y: y as i32 }));
            }
        }
    }
}

proof fn lemma_visit_add(
    g: GameView,
    d0: Seq<i64>,
    p0: Seq<Pos>,
    k: int,
    f: Seq<Pos>,
    fi: int,
    d: int,
    before: Seq<i64>,
    pbefore: Seq<Pos>,
    nbefore: Seq<Pos>,
    n: Pos,
)
    requires
        g.sized(),
        0 <= k <= CELLS,
        0 <= fi < f.len(),
        0 <= d < 4,
        n.x == nb_x(f[fi], d),
        n.y == nb_y(f[fi], d),
        in_map(n),
        known(g, n.x as int, n.y as int),
        before[cell(n.x as int, n.y as int)] < 0,
        reach(g, f[fi].x as int, f[fi].y as int, k),
        k > 0 ==> !reach(g, f[fi].x as int, f[fi].y as int, k - 1),
        layer_ok(g, d0, p0, k, f, fi, d, before, pbefore, nbefore),
    ensures
        layer_ok(
            g,
            d0,
            p0,
            k,
            f,
            fi,
            d + 1,
            before.update(cell(n.x as int, n.y as int), (k + 1) as i64),
            pbefore.update(cell(n.x as int, n.y as int), f[fi]),
            nbefore.push(n),
        ),
{
    reveal(layer_ok);
    let u = f[fi];
    let ni = cell(n.x as int, n.y as int);
    let dist = before.update(ni, (k + 1) as i64);
    let prev = pbefore.update(ni, u);
    let next = nbefore.push(n);
    lemma_cell_pos(n.x as int, n.y as int);
    assert(!reach(g, n.x as int, n.y as int, k));
    if u != g.player {
        assert(in_map(u)) by {
            lemma_reach_known(g, u.x as int, u.y as int, k);
        }
        lemma_cell_pos(u.x as int, u.y as int);
        lemma_label_facts(g, d0, p0, k, u.x as int, u.y as int);
        let du = d0[cell(u.x as int, u.y as int)];
        if du < k {
            lemma_reach_mono(g, u.x as int, u.y as int, du as int, k - 1);
        }
        assert(dist[cell(u.x as int, u.y as int)] == k);
    }
    assert(good_prev(g, dist, u, n.x as int, n.y as int, k + 1));
    assert(next[next.len() - 1] == n);
    assert(forall|x: int, y: int|
        in_grid(x, y) && reach(g, x, y, k) ==> #[trigger] before[cell(x, y)] == d0[cell(x, y)] && pbefore[cell(x, y)]
            == p0[cell(x, y)]);
    assert forall|x: int, y: int| in_grid(x, y) implies ((#[trigger] dist[cell(x, y)] >= 0) == (reach(
        g,
        x,
        y,
        k,
    ) || (known(g, x, y) && (near(f, fi, x, y) || (fi < f.len() && near_dirs(f[fi], d + 1, x, y)))))) by {
        lemma_cell_pos(x, y);
    }
    assert forall|x: int, y: int| in_grid(x, y) && reach(g, x, y, k) implies #[trigger] dist[cell(x, y)] == d0[cell(
        x,
        y,
    )] && prev[cell(x, y)] == p0[cell(x, y)] by {
        lemma_cell_pos(x, y);
        assert(in_grid(x, y) && reach(g, x, y, k));
        assert(x != n.x || y != n.y);
        assert(cell(x, y) != ni);
        assert(dist[cell(x, y)] == before[cell(x, y)]);
        assert(before[cell(x, y)] == d0[cell(x, y)]);
    }
    assert forall|x: int, y: int| in_grid(x, y) && #[trigger] dist[cell(x, y)] >= 0 && !reach(g, x, y, k) implies {
        &&& dist[cell(x, y)] == k + 1
        &&& known(g, x, y)
        &&& good_prev(g, dist, prev[cell(x, y)], x, y, k + 1)
        &&& next.contains(Pos { x: x as i32, y: y as i32 })
    } by {
        lemma_cell_pos(x, y);
        if x == n.x && y == n.y {
            assert(prev[cell(x, y)] == u);
        } else {
            assert(before[cell(x, y)] >= 0);
            assert(nbefore.contains(Pos { x: x as i32, y: y as i32 }));
            let j = choose|j: int| 0 <= j < nbefore.len() && nbefore[j] == Pos { x: x as i32, y: y as i32 };
            assert(next[j] == nbefore[j]);
            let gp = prev[cell(x, y)];
            assert(gp == pbefore[cell(x, y)]);
            assert(good_prev(g, before, gp, x, y, k + 1));
            if gp != g.player {
                lemma_cell_pos(gp.x as int, gp.y as int);
            }
        }
    }
    assert forall|j: int| 0 <= j < next.len() implies in_map(#[trigger] next[j]) && dist[cell(
        next[j].x as int,
        next[j].y as int,
    )] == k + 1 && !reach(g, next[j].x as int, next[j].y as int, k) by {
        if j < nbefore.len() {
            assert(next[j] == nbefore[j]);
            lemma_cell_pos(next[j].x as int, next[j].y as int);
        }
    }
}

proof fn lemma_visit_skip(
    g: GameView,
    d0: Seq<i64>,
    p0: Seq<Pos>,
    k: int,
    f: Seq<Pos>,
    fi: int,
    d: int,
    dist: Seq<i64>,
    prev: Seq<Pos>,
    next: Seq<Pos>,
)
    requires
        g.sized(),
        0 <= k,
        0 <= fi < f.len(),
        0 <= d < 4,
        reach(g, f[fi].x as int, f[fi].y as int, k),
        layer_ok(g, d0, p0, k, f, fi, d, dist, prev, next),
        in_grid(nb_x(f[fi], d), nb_y(f[fi], d)) && known(g, nb_x(f[fi], d), nb_y(f[fi], d)) ==> dist[cell(
            nb_x(f[fi], d),
            nb_y(f[fi], d),
        )] >= 0,
    ensures
        layer_ok(g, d0, p0, k, f, fi, d + 1, dist, prev, next),
{
    reveal(layer_ok);
    let u = f[fi];
    assert forall|x: int, y: int| in_grid(x, y) implies ((#[trigger] dist[cell(x, y)] >= 0) == (reach(
        g,
        x,
        y,
        k,
    ) || (known(g, x, y) && (near(f, fi, x, y) || (fi < f.len() && near_dirs(f[fi], d + 1, x, y)))))) by {
        if x == nb_x(u, d) && y == nb_y(u, d) {
            if known(g, x, y) && !reach(g, x, y, k) && !near(f, fi, x, y) {
                assert(dist[cell(x, y)] >= 0);
            }
        }
    }
}


/// `(x, y)` is first reached in exactly `j` steps.
pub open spec fn exact(g: GameView, x: int, y: int, j: int) -> bool {
    reach(g, x, y, j) && !reach(g, x, y, j - 1)
}

/// `(x, y)`, first reached in exactly `j` steps, lies on a shortest route to
/// `t`, which is first reached in exactly `dt` steps.
pub open spec fn on_way(g: GameView, x: int, y: int, j: int, dt: int, t: Pos) -> bool
    decreases dt - j,
{
    if j >= dt {
        exact(g, x, y, j) && j == dt && x == t.x && y == t.y
    } else {
        &&& exact(g, x, y, j)
        &&& ((known(g, x + 1, y) && on_way(g, x + 1, y, j + 1, dt, t)) || (known(g, x - 1, y) && on_way(
            g,
            x - 1,
            y,
            j + 1,
            dt,
            t,
        )) || (known(g, x, y + 1) && on_way(g, x, y + 1, j + 1, dt, t)) || (known(g, x, y - 1) && on_way(
            g,
            x,
            y - 1,
            j + 1,
            dt,
            t,
        )))
    }
}

/// The step from `(x, y)` in direction `d` (east, west, south, north) lands
/// on explored floor that lies on a shortest route to `t`.
pub open spec fn way_step(g: GameView, x: int, y: int, d: int, j: int, dt: int, t: Pos) -> bool {
    let nx = if d == 0 { x + 1 } else if d == 1 { x - 1 } else { x };
    let ny = if d == 2 { y + 1 } else if d == 3 { y - 1 } else { y };
    known(g, nx, ny) && on_way(g, nx, ny, j + 1, dt, t)
}

/// The direction of the step from `a` to the neighbouring `b`: 0 east,
/// 1 west, 2 south, 3 north.
pub open spec fn dir_of(a: Pos, b: Pos) -> int {
    if b.x == a.x + 1 {
        0
    } else if b.x == a.x - 1 {
        1
    } else if b.y == a.y + 1 {
        2
    } else {
        3
    }
}

/// Where `p` and `q` first part, `p` steps in the earlier direction (east,
/// west, south, north, in that order).
pub open spec fn turns_first(p: Seq<Pos>, q: Seq<Pos>) -> bool {
    exists|i: int|
        1 <= i < p.len() && i < q.len() && p.take(i) == q.take(i) && dir_of(p[i - 1], p[i]) < dir_of(
            q[i - 1],
            #[trigger] q[i],
        )
}

/// `path` is the first of the shortest routes to `target`: every other route
/// of its length parts from it by turning later.
pub open spec fn first_route(g: GameView, path: Seq<Pos>, target: Pos) -> bool {
    forall|q: Seq<Pos>| is_route(g, q, target) && q.len() == path.len() && q != path ==> turns_first(path, q)
}

proof fn lemma_dir_of(a: Pos, b: Pos)
    requires
        manhattan(a, b) == 1,
    ensures
        0 <= dir_of(a, b) < 4,
        nb_x(a, dir_of(a, b)) == b.x,
        nb_y(a, dir_of(a, b)) == b.y,
{
}

/// Steps along a route keep adding one to a budget that reaches them.
proof fn lemma_suffix_reach(g: GameView, q: Seq<Pos>, target: Pos, j: int, i: int, m: int)
    requires
        is_route(g, q, target),
        0 <= j <= i < q.len(),
        m >= 0,
        reach(g, q[j].x as int, q[j].y as int, m),
    ensures
        reach(g, q[i].x as int, q[i].y as int, m + (i - j)),
    decreases i - j,
{
    if i > j {
        lemma_suffix_reach(g, q, target, j, i - 1, m);
        let u = q[i - 1];
        let v = q[i];
        assert(known(g, v.x as int, v.y as int) && manhattan(u, v) == 1);
        lemma_reach_step(g, u.x as int, u.y as int, v.x as int, v.y as int, m + (i - 1 - j));
    }
}

/// Every tile of a shortest route lies on the way.
proof fn lemma_route_on_way(g: GameView, q: Seq<Pos>, target: Pos, dt: int, j: int)
    requires
        is_route(g, q, target),
        q.len() == dt + 1,
        exact(g, target.x as int, target.y as int, dt),
        0 <= j <= dt,
    ensures
        on_way(g, q[j].x as int, q[j].y as int, j, dt, target),
    decreases dt - j,
{
    lemma_prefix_reach(g, q, target, j);
    if j >= 1 && reach(g, q[j].x as int, q[j].y as int, j - 1) {
        lemma_suffix_reach(g, q, target, j, dt, j - 1);
        assert(q[dt] == target);
    }
    if j < dt {
        lemma_route_on_way(g, q, target, dt, j + 1);
        lemma_dir_of(q[j], q[j + 1]);
        assert(known(g, q[j + 1].x as int, q[j + 1].y as int));
    } else {
        assert(q[j] == target);
    }
}

/// A tile first reached in `j` steps that lies on the way puts the player on
/// the way.
proof fn lemma_way_from_player(g: GameView, x: int, y: int, j: int, dt: int, t: Pos)
    requires
        0 <= j <= dt,
        on_way(g, x, y, j, dt, t),
    ensures
        on_way(g, g.player.x as int, g.player.y as int, 0, dt, t),
    decreases j,
{
    if j == 0 {
        assert(reach(g, x, y, 0));
    } else {
        assert(exact(g, x, y, j));
        assert(known(g, x, y));
        if reach(g, x + 1, y, j - 1) {
            assert(exact(g, x + 1, y, j - 1)) by {
                if reach(g, x + 1, y, j - 2) {
                    lemma_reach_step(g, x + 1, y, x, y, j - 2);
                }
            }
            lemma_way_from_player(g, x + 1, y, j - 1, dt, t);
        } else if reach(g, x - 1, y, j - 1) {
            assert(exact(g, x - 1, y, j - 1)) by {
                if reach(g, x - 1, y, j - 2) {
                    lemma_reach_step(g, x - 1, y, x, y, j - 2);
                }
            }
            lemma_way_from_player(g, x - 1, y, j - 1, dt, t);
        } else if reach(g, x, y + 1, j - 1) {
            assert(exact(g, x, y + 1, j - 1)) by {
                if reach(g, x, y + 1, j - 2) {
                    lemma_reach_step(g, x, y + 1, x, y, j - 2);
                }
            }
            lemma_way_from_player(g, x, y + 1, j - 1, dt, t);
        } else {
            assert(reach(g, x, y - 1, j - 1));
            assert(exact(g, x, y - 1, j - 1)) by {
                if reach(g, x, y - 1, j - 2) {
                    lemma_reach_step(g, x, y - 1, x, y, j - 2);
                }
            }
            lemma_way_from_player(g, x, y - 1, j - 1, dt, t);
        }
    }
}

/// The first place two routes of one length part.
proof fn lemma_first_part(p: Seq<Pos>, q: Seq<Pos>, i: int) -> (k: int)
    requires
        p.len() == q.len(),
        0 <= i < p.len(),
        forall|m: int| 0 <= m < i ==> p[m] == q[m],
        exists|m: int| i <= m < p.len() && p[m] != q[m],
    ensures
        i <= k < p.len(),
        p[k] != q[k],
        forall|m: int| 0 <= m < k ==> p[m] == q[m],
    decreases p.len() - i,
{
    if p[i] != q[i] {
        i
    } else {
        lemma_first_part(p, q, i + 1)
    }
}

/// A route chosen by always taking the earliest direction that stays on the
/// way turns first against every other route of its length.
#[verifier::rlimit(40)]
proof fn lemma_greedy_first(g: GameView, p: Seq<Pos>, q: Seq<Pos>, target: Pos, dt: int)
    requires
        is_route(g, p, target),
        is_route(g, q, target),
        p.len() == dt + 1,
        q.len() == dt + 1,
        q != p,
        exact(g, target.x as int, target.y as int, dt),
        forall|i: int, d: int|
            #![trigger way_step(g, p[i].x as int, p[i].y as int, d, i, dt, target)]
            0 <= i < dt && 0 <= d < dir_of(p[i], p[i + 1]) ==> !way_step(
                g,
                p[i].x as int,
                p[i].y as int,
                d,
                i,
                dt,
                target,
            ),
    ensures
        turns_first(p, q),
{
    assert(exists|m: int| 0 <= m < p.len() && p[m] != q[m]) by {
        if forall|m: int| 0 <= m < p.len() ==> p[m] == q[m] {
            assert(p =~= q);
        }
    }
    let k = lemma_first_part(p, q, 0);
    assert(k >= 1);
    let c = p[k - 1];
    assert(q[k - 1] == c);
    lemma_route_on_way(g, q, target, dt, k);
    lemma_dir_of(c, q[k]);
    lemma_dir_of(c, p[k]);
    assert(known(g, q[k].x as int, q[k].y as int));
    assert(way_step(g, c.x as int, c.y as int, dir_of(c, q[k]), k - 1, dt, target));
    assert(dir_of(c, q[k]) != dir_of(c, p[k]));
    assert(p.take(k) =~= q.take(k));
    assert(dir_of(p[k - 1], p[k]) < dir_of(q[k - 1], q[k]));
}


/// On finished labels, a tile is first reached in `j` steps exactly when its
/// label says `j`.
proof fn lemma_exact_label(g: GameView, dist: Seq<i64>, prev: Seq<Pos>, k: int, x: int, y: int, j: int)
    requires
        labels_ok(g, dist, prev, k),
        k >= 1,
        forall|x2: int, y2: int| #[trigger] reach(g, x2, y2, k) == reach(g, x2, y2, k - 1),
        in_grid(x, y),
        j >= 0,
    ensures
        exact(g, x, y, j) == (dist[cell(x, y)] == j),
{
    lemma_label_facts(g, dist, prev, k, x, y);
    if exact(g, x, y, j) {
        if j <= k {
            lemma_reach_mono(g, x, y, j, k);
        } else {
            lemma_reach_stable(g, k - 1, j);
            assert(reach(g, x, y, k - 1));
            lemma_reach_mono(g, x, y, k - 1, k);
        }
        let v = dist[cell(x, y)] as int;
        assert(v >= 0);
        if v < j {
            lemma_reach_mono(g, x, y, v, j - 1);
        } else if v > j {
            lemma_reach_mono(g, x, y, j, v - 1);
        }
    }
}

/// The player's own tile is never first reached after the start.
proof fn lemma_player_not_later(g: GameView, j: int)
    requires
        j >= 1,
    ensures
        !exact(g, g.player.x as int, g.player.y as int, j),
{
    lemma_reach_mono(g, g.player.x as int, g.player.y as int, 0, j - 1);
}

impl Game {
    /// Label neighbour `d` of frontier tile `fi` if it is unlabelled explored
    /// floor.
    fn visit(
        &self,
        f: &Vec<Pos>,
        fi: usize,
        d: usize,
        k: i64,
        dist: &mut Vec<i64>,
        prev: &mut Vec<Pos>,
        next: &mut Vec<Pos>,
        Ghost(d0): Ghost<Seq<i64>>,
        Ghost(p0): Ghost<Seq<Pos>>,
    )
        requires
            self@.sized(),
            0 <= k <= CELLS,
            fi < f@.len(),
            d < 4,
            reach(self@, f@[fi as int].x as int, f@[fi as int].y as int, k as int),
            k > 0 ==> !reach(self@, f@[fi as int].x as int, f@[fi as int].y as int, k - 1),
            layer_ok(self@, d0, p0, k as int, f@, fi as int, d as int, old(dist)@, old(prev)@, old(next)@),
        ensures
            layer_ok(self@, d0, p0, k as int, f@, fi as int, d + 1, final(dist)@, final(prev)@, final(next)@),
            vset(final(dist)@).len() >= vset(old(dist)@).len(),
            final(next)@.len() > old(next)@.len() ==> vset(final(dist)@).len() > vset(old(dist)@).len(),
    {
        let ghost g = self@;
        proof {
            reveal(layer_ok);
        }
        let u = f[fi];
        let nx: i64 = if d == 0 {
            u.x as i64 + 1
        } else if d == 1 {
            u.x as i64 - 1
        } else {
            u.x as i64
        };
        let ny: i64 = if d == 2 {
            u.y as i64 + 1
        } else if d == 3 {
            u.y as i64 - 1
        } else {
            u.y as i64
        };
        assert(nx == nb_x(u, d as int) && ny == nb_y(u, d as int));
        if 0 <= nx && nx < 44 && 0 <= ny && ny < 28 {
            let n = Pos { x: nx as i32, y: ny as i32 };
            let i = (ny * 44 + nx) as usize;
            proof {
                lemma_cell_pos(nx as int, ny as int);
            }
            if self.floor(n) && self.discovered(n) && dist[i] < 0 {
                let ghost before = dist@;
                let ghost pbefore = prev@;
                let ghost nbefore = next@;
                proof {
                    lemma_vset_insert(before, i as int, (k + 1) as i64);
                }
                dist.set(i, k + 1);
                prev.set(i, u);
                next.push(n);
                proof {
                    lemma_visit_add(g, d0, p0, k as int, f@, fi as int, d as int, before, pbefore, nbefore, n);
                }
                return;
            }
        }
        proof {
            lemma_visit_skip(g, d0, p0, k as int, f@, fi as int, d as int, dist@, prev@, next@);
        }
    }

    /// Shortest path over discovered walkable tiles only, from the player to
    /// `target` inclusive: of all shortest routes, the one a breadth-first
    /// search trying east, west, south, north finds, which is the one that
    /// turns first wherever routes part. `None` when the target is
    /// undiscovered or not connected through the known map.
    pub fn known_route(&self, target: Pos) -> (r: Option<Vec<Pos>>)
        requires
            self@.sized(),
        ensures
            match r {
                None => !(self@.discovered(target) && self@.floor(target)) || forall|p: Seq<Pos>|
                    !is_route(self@, p, target),
                Some(path) => {
                    &&& self@.discovered(target)
                    &&& self@.floor(target)
                    &&& is_route(self@, path@, target)
                    &&& forall|p: Seq<Pos>| is_route(self@, p, target) ==> path@.len() <= p.len()
                    &&& first_route(self@, path@, target)
                },
            },
    {
        let ghost g = self@;
        if !self.discovered(target) || !self.floor(target) {
            return None;
        }
        let player = self.player;
        let mut dist: Vec<i64> = vec![-1i64; CELLS];
        let mut prev: Vec<Pos> = vec![player; CELLS];
        match Self::index(player) {
            Some(pi) => {
                dist.set(pi, 0);
            },
            None => {},
        }
        let mut frontier: Vec<Pos> = vec![player];
        let mut level: i64 = 0;
        proof {
            if in_map(player) {
                lemma_cell_pos(player.x as int, player.y as int);
            }
            assert forall|x: int, y: int| in_grid(x, y) implies ((#[trigger] dist@[cell(x, y)] >= 0) == reach(
                g,
                x,
                y,
                0,
            )) by {
                lemma_cell_pos(x, y);
            }
            assert forall|x: int, y: int| in_grid(x, y) && #[trigger] dist@[cell(x, y)] >= 0 implies {
                &&& dist@[cell(x, y)] <= 0
                &&& reach(g, x, y, dist@[cell(x, y)] as int)
                &&& !reach(g, x, y, dist@[cell(x, y)] - 1)
                &&& dist@[cell(x, y)] == 0 ==> x == g.player.x && y == g.player.y
                &&& dist@[cell(x, y)] > 0 ==> known(g, x, y) && good_prev(
                    g,
                    dist@,
                    prev@[cell(x, y)],
                    x,
                    y,
                    dist@[cell(x, y)] as int,
                )
            } by {
                lemma_cell_pos(x, y);
            }
            assert(frontier@[0] == player);
            assert forall|x: int, y: int|
                #[trigger] reach(g, x, y, 0) && (0 == 0 || !reach(g, x, y, -1)) implies frontier@.contains(
                Pos { x: x as i32, y: y as i32 },
            ) by {
                assert(frontier@[0] == Pos { x: x as i32, y: y as i32 });
            }
            lemma_vset_bound(dist@);
            assert(frontier_ok(g, frontier@, 0));
            reveal(labels_ok);
            assert(labels_ok(g, dist@, prev@, 0));
        }
        loop
            invariant
                g == self@,
                g.sized(),
                g.discovered(target),
                g.floor(target),
                0 <= level <= CELLS,
                labels_ok(g, dist@, prev@, level as int),
                frontier_ok(g, frontier@, level as int),
                level <= vset(dist@).len(),
            decreases CELLS - vset(dist@).len(),
        {
            let ghost k = level as int;
            let ghost d0 = dist@;
            let ghost p0 = prev@;
            proof {
                lemma_vset_bound(dist@);
                reveal(layer_ok);
                reveal(labels_ok);
                assert(layer_ok(g, d0, p0, k, frontier@, 0, 0, dist@, prev@, Seq::<Pos>::empty()));
            }
            let mut next: Vec<Pos> = Vec::new();
            let mut fi: usize = 0;
            while fi < frontier.len()
                invariant
                    g == self@,
                    g.sized(),
                    k == level,
                    0 <= level <= CELLS,
                    fi <= frontier@.len(),
                    frontier_ok(g, frontier@, k),
                    layer_ok(g, d0, p0, k, frontier@, fi as int, 0, dist@, prev@, next@),
                    vset(dist@).len() >= vset(d0).len(),
                    next@.len() > 0 ==> vset(dist@).len() > vset(d0).len(),
                decreases frontier@.len() - fi,
            {
                let mut d: usize = 0;
                while d < 4
                    invariant
                        g == self@,
                        g.sized(),
                        k == level,
                        0 <= level <= CELLS,
                        fi < frontier@.len(),
                        d <= 4,
                        frontier_ok(g, frontier@, k),
                        layer_ok(g, d0, p0, k, frontier@, fi as int, d as int, dist@, prev@, next@),
                        vset(dist@).len() >= vset(d0).len(),
                        next@.len() > 0 ==> vset(dist@).len() > vset(d0).len(),
                    decreases 4 - d,
                {
                    self.visit(&frontier, fi, d, level, &mut dist, &mut prev, &mut next, Ghost(d0), Ghost(p0));
                    d = d + 1;
                }
                proof {
                    lemma_layer_next_dir(g, d0, p0, k, frontier@, fi as int, dist@, prev@, next@);
                }
                fi = fi + 1;
            }
            proof {
                lemma_layer_done(g, d0, p0, k, frontier@, dist@, prev@, next@);
                lemma_vset_bound(dist@);
            }
            if next.len() == 0 {
                return self.route_from_labels(target, &dist, Ghost(prev@), level + 1);
            }
            frontier = next;
            level = level + 1;
        }
    }

    /// Whether `(x, y)` is explored floor on the way to `t`, one step after
    /// a tile first reached in `j` steps, read off the labels and the marks.
    fn way_from(
        &self,
        dist: &Vec<i64>,
        mark: &Vec<bool>,
        x: i64,
        y: i64,
        j: i64,
        Ghost(prev): Ghost<Seq<Pos>>,
        Ghost(k): Ghost<int>,
        Ghost(dt): Ghost<int>,
        Ghost(t): Ghost<Pos>,
    ) -> (r: bool)
        requires
            self@.sized(),
            labels_ok(self@, dist@, prev, k),
            k >= 1,
            forall|x2: int, y2: int| #[trigger] reach(self@, x2, y2, k) == reach(self@, x2, y2, k - 1),
            mark@.len() == CELLS,
            0 <= j < dt,
            j <= CELLS,
            forall|x2: int, y2: int|
                in_grid(x2, y2) && #[trigger] dist@[cell(x2, y2)] > j ==> mark@[cell(x2, y2)] == on_way(
                    self@,
                    x2,
                    y2,
                    dist@[cell(x2, y2)] as int,
                    dt,
                    t,
                ),
        ensures
            r == (known(self@, x as int, y as int) && on_way(self@, x as int, y as int, j + 1, dt, t)),
    {
        let ghost g = self@;
        if 0 <= x && x < 44 && 0 <= y && y < 28 {
            proof {
                lemma_cell_pos(x as int, y as int);
                lemma_label_facts(g, dist@, prev, k, x as int, y as int);
                lemma_exact_label(g, dist@, prev, k, x as int, y as int, j + 1);
                lemma_player_not_later(g, j + 1);
                if exact(g, x as int, y as int, j + 1) {
                    lemma_reach_known(g, x as int, y as int, j + 1);
                }
            }
            let c = (y * 44 + x) as usize;
            dist[c] == j + 1 && mark[c]
        } else {
            false
        }
    }

    /// The first shortest route to `target`, read off finished labels: the
    /// tiles on some shortest route are marked from the target back, then
    /// the route is walked from the player, always taking the earliest
    /// direction (east, west, south, north) that stays on a marked tile.
    #[verifier::rlimit(40)]
    fn route_from_labels(&self, target: Pos, dist: &Vec<i64>, Ghost(prev): Ghost<Seq<Pos>>, k: i64) -> (r: Option<
        Vec<Pos>,
    >)
        requires
            self@.sized(),
            self@.discovered(target),
            self@.floor(target),
            1 <= k <= CELLS + 1,
            labels_ok(self@, dist@, prev, k as int),
            forall|x: int, y: int| #[trigger] reach(self@, x, y, k as int) == reach(self@, x, y, k - 1),
        ensures
            match r {
                None => forall|p: Seq<Pos>| !is_route(self@, p, target),
                Some(path) => {
                    &&& is_route(self@, path@, target)
                    &&& forall|p: Seq<Pos>| is_route(self@, p, target) ==> path@.len() <= p.len()
                    &&& first_route(self@, path@, target)
                },
            },
    {
        let ghost g = self@;
        proof {
            lemma_cell_pos(target.x as int, target.y as int);
            lemma_label_facts(g, dist@, prev, k as int, target.x as int, target.y as int);
        }
        let ti = (target.y * 44 + target.x) as usize;
        let dt = dist[ti];
        if dt < 0 {
            proof {
                lemma_no_route(g, target, k as int);
            }
            return None;
        }
        proof {
            lemma_exact_label(g, dist@, prev, k as int, target.x as int, target.y as int, dt as int);
        }
        let ghost kk = k as int;
        let ghost gdt = dt as int;
        let mut mark: Vec<bool> = vec![false; CELLS];
        let mut j: i64 = dt;
        while j >= 1
            invariant
                g == self@,
                g.sized(),
                labels_ok(g, dist@, prev, kk),
                kk == k,
                1 <= kk <= CELLS + 1,
                forall|x: int, y: int| #[trigger] reach(g, x, y, kk) == reach(g, x, y, kk - 1),
                dist@.len() == CELLS,
                mark@.len() == CELLS,
                0 <= j <= dt,
                gdt == dt,
                dt <= CELLS + 1,
                exact(g, target.x as int, target.y as int, gdt),
                forall|x: int, y: int|
                    in_grid(x, y) && #[trigger] dist@[cell(x, y)] > j ==> mark@[cell(x, y)] == on_way(
                        g,
                        x,
                        y,
                        dist@[cell(x, y)] as int,
                        gdt,
                        target,
                    ),
            decreases j,
        {
            let mut i: usize = 0;
            while i < CELLS
                invariant
                    g == self@,
                    g.sized(),
                    labels_ok(g, dist@, prev, kk),
                    kk == k,
                    1 <= kk <= CELLS + 1,
                    forall|x: int, y: int| #[trigger] reach(g, x, y, kk) == reach(g, x, y, kk - 1),
                    dist@.len() == CELLS,
                    mark@.len() == CELLS,
                    1 <= j <= dt,
                    dt <= CELLS + 1,
                    gdt == dt,
                    i <= CELLS,
                    forall|x: int, y: int|
                        in_grid(x, y) && (#[trigger] dist@[cell(x, y)] > j || (dist@[cell(x, y)] == j && cell(x, y) < i))
                            ==> mark@[cell(x, y)] == on_way(g, x, y, dist@[cell(x, y)] as int, gdt, target),
                decreases CELLS - i,
            {
                if dist[i] == j {
                    let x: i64 = (i % 44) as i64;
                    let y: i64 = (i / 44) as i64;
                    proof {
                        lemma_pos_cell(i as int);
                        lemma_cell_pos(x as int, y as int);
                        lemma_exact_label(g, dist@, prev, kk, x as int, y as int, j as int);
                    }
                    let v = if j == dt {
                        x == target.x as i64 && y == target.y as i64
                    } else {
                        self.way_from(dist, &mark, x + 1, y, j, Ghost(prev), Ghost(kk), Ghost(gdt), Ghost(target))
                            || self.way_from(dist, &mark, x - 1, y, j, Ghost(prev), Ghost(kk), Ghost(gdt), Ghost(target))
                            || self.way_from(dist, &mark, x, y + 1, j, Ghost(prev), Ghost(kk), Ghost(gdt), Ghost(target))
                            || self.way_from(dist, &mark, x, y - 1, j, Ghost(prev), Ghost(kk), Ghost(gdt), Ghost(target))
                    };
                    assert(v == on_way(g, x as int, y as int, j as int, gdt, target));
                    let ghost before = mark@;
                    mark.set(i, v);
                    proof {
                        assert forall|x2: int, y2: int|
                            in_grid(x2, y2) && (#[trigger] dist@[cell(x2, y2)] > j || (dist@[cell(x2, y2)] == j && cell(
                                x2,
                                y2,
                            ) < i + 1)) implies mark@[cell(x2, y2)] == on_way(
                            g,
                            x2,
                            y2,
                            dist@[cell(x2, y2)] as int,
                            gdt,
                            target,
                        ) by {
                            lemma_cell_pos(x2, y2);
                            if cell(x2, y2) == i {
                                assert(x2 == x && y2 == y);
                            } else {
                                assert(mark@[cell(x2, y2)] == before[cell(x2, y2)]);
                            }
                        }
                    }
                }
                i = i + 1;
            }
            proof {
                assert forall|x: int, y: int|
                    in_grid(x, y) && #[trigger] dist@[cell(x, y)] > j - 1 implies mark@[cell(x, y)] == on_way(
                    g,
                    x,
                    y,
                    dist@[cell(x, y)] as int,
                    gdt,
                    target,
                ) by {
                    lemma_cell_pos(x, y);
                }
            }
            j = j - 1;
        }
        proof {
            assert(on_way(g, target.x as int, target.y as int, gdt, gdt, target));
            lemma_way_from_player(g, target.x as int, target.y as int, gdt, gdt, target);
        }
        let player = self.player;
        let mut path: Vec<Pos> = vec![player];
        let mut cur = player;
        let mut step: i64 = 0;
        while step < dt
            invariant
                g == self@,
                g.sized(),
                labels_ok(g, dist@, prev, kk),
                kk == k,
                1 <= kk <= CELLS + 1,
                forall|x: int, y: int| #[trigger] reach(g, x, y, kk) == reach(g, x, y, kk - 1),
                dist@.len() == CELLS,
                mark@.len() == CELLS,
                gdt == dt,
                dt <= CELLS + 1,
                0 <= step <= dt,
                player == g.player,
                path@.len() == step + 1,
                path@[0] == g.player,
                path@[step as int] == cur,
                on_way(g, cur.x as int, cur.y as int, step as int, gdt, target),
                forall|x: int, y: int|
                    in_grid(x, y) && #[trigger] dist@[cell(x, y)] > 0 ==> mark@[cell(x, y)] == on_way(
                        g,
                        x,
                        y,
                        dist@[cell(x, y)] as int,
                        gdt,
                        target,
                    ),
                forall|i: int|
                    1 <= i <= step ==> known(g, #[trigger] path@[i].x as int, path@[i].y as int) && manhattan(
                        path@[i - 1],
                        path@[i],
                    ) == 1,
                forall|i: int, d: int|
                    #![trigger way_step(g, path@[i].x as int, path@[i].y as int, d, i, gdt, target)]
                    0 <= i < step && 0 <= d < dir_of(path@[i], path@[i + 1]) ==> !way_step(
                        g,
                        path@[i].x as int,
                        path@[i].y as int,
                        d,
                        i,
                        gdt,
                        target,
                    ),
            decreases dt - step,
        {
            let cx: i64 = cur.x as i64;
            let cy: i64 = cur.y as i64;
            let mut d: i64 = 0;
            let mut found = false;
            let mut nx: i64 = cx;
            let mut ny: i64 = cy;
            while d < 4
                invariant
                    g == self@,
                    g.sized(),
                    labels_ok(g, dist@, prev, kk),
                    kk >= 1,
                    forall|x: int, y: int| #[trigger] reach(g, x, y, kk) == reach(g, x, y, kk - 1),
                    mark@.len() == CELLS,
                    0 <= step < dt,
                    dt <= CELLS + 1,
                    gdt == dt,
                    cx == cur.x,
                    cy == cur.y,
                    0 <= d <= 4,
                    forall|x: int, y: int|
                        in_grid(x, y) && #[trigger] dist@[cell(x, y)] > 0 ==> mark@[cell(x, y)] == on_way(
                            g,
                            x,
                            y,
                            dist@[cell(x, y)] as int,
                            gdt,
                            target,
                        ),
                    !found ==> forall|e: int| 0 <= e < d ==> !way_step(g, cx as int, cy as int, e, step as int, gdt, target),
                    found ==> 0 <= d < 4 && nx == nb_x(cur, d as int) && ny == nb_y(cur, d as int) && way_step(
                        g,
                        cx as int,
                        cy as int,
                        d as int,
                        step as int,
                        gdt,
                        target,
                    ) && forall|e: int| 0 <= e < d ==> !way_step(g, cx as int, cy as int, e, step as int, gdt, target),
                ensures
                    found || d == 4,
                    !found ==> forall|e: int| 0 <= e < d ==> !way_step(g, cx as int, cy as int, e, step as int, gdt, target),
                    found ==> 0 <= d < 4 && nx == nb_x(cur, d as int) && ny == nb_y(cur, d as int) && way_step(
                        g,
                        cx as int,
                        cy as int,
                        d as int,
                        step as int,
                        gdt,
                        target,
                    ) && forall|e: int| 0 <= e < d ==> !way_step(g, cx as int, cy as int, e, step as int, gdt, target),
                decreases 4 - d,
            {
                let tx: i64 = if d == 0 { cx + 1 } else if d == 1 { cx - 1 } else { cx };
                let ty: i64 = if d == 2 { cy + 1 } else if d == 3 { cy - 1 } else { cy };
                let ok = self.way_from(dist, &mark, tx, ty, step, Ghost(prev), Ghost(kk), Ghost(gdt), Ghost(target));
                if ok {
                    found = true;
                    nx = tx;
                    ny = ty;
                    break;
                }
                d = d + 1;
            }
            proof {
                if !found {
                    assert(!way_step(g, cx as int, cy as int, 0, step as int, gdt, target));
                    assert(!way_step(g, cx as int, cy as int, 1, step as int, gdt, target));
                    assert(!way_step(g, cx as int, cy as int, 2, step as int, gdt, target));
                    assert(!way_step(g, cx as int, cy as int, 3, step as int, gdt, target));
                    assert(false);
                }
            }
            let next = Pos { x: nx as i32, y: ny as i32 };
            let ghost old_path = path@;
            path.push(next);
            proof {
                assert(dir_of(cur, next) == d);
                assert forall|i: int, e: int|
                    #![trigger way_step(g, path@[i].x as int, path@[i].y as int, e, i, gdt, target)]
                    0 <= i < step + 1 && 0 <= e < dir_of(path@[i], path@[i + 1]) implies !way_step(
                        g,
                        path@[i].x as int,
                        path@[i].y as int,
                        e,
                        i,
                        gdt,
                        target,
                    ) by {
                    if i < step {
                        assert(path@[i] == old_path[i] && path@[i + 1] == old_path[i + 1]);
                    } else {
                        assert(path@[i] == cur && path@[i + 1] == next);
                    }
                }
                assert forall|i: int| 1 <= i <= step + 1 implies known(g, #[trigger] path@[i].x as int, path@[i].y as int)
                    && manhattan(path@[i - 1], path@[i]) == 1 by {
                    if i <= step {
                        assert(path@[i] == old_path[i] && path@[i - 1] == old_path[i - 1]);
                    }
                }
            }
            cur = next;
            step = step + 1;
        }
        proof {
            assert(cur.x == target.x && cur.y == target.y);
            assert(path@.last() == target);
            assert forall|i: int| 1 <= i < path@.len() implies known(g, path@[i].x as int, path@[i].y as int)
                && manhattan(path@[i - 1], #[trigger] path@[i]) == 1 by {
                assert(known(g, path@[i].x as int, path@[i].y as int));
            }
            assert(is_route(g, path@, target));
            lemma_shortest(g, target, gdt);
            assert forall|q: Seq<Pos>| is_route(g, q, target) && q.len() == path@.len() && q != path@ implies turns_first(
                path@,
                q,
            ) by {
                lemma_greedy_first(g, path@, q, target, gdt);
            }
        }
        Some(path)
    }
}

} // verus!
