//! What every generated expedition is like: six disjoint rooms joined in a
//! chain by corridors, so the start is consistent and every objective can
//! be walked to.
use vstd::prelude::*;

use crate::check::valid;
use crate::consistency::{
    archives_ok, consistent, lemma_log_ok, lemma_valid_is_consistent, lemma_view_ok, law_rules_keep_the_expedition_valid,
    sentinels_ok, sound_state,
};
use crate::game::{cell, count_recovered, floor_in, in_grid, lemma_cell_pos, Action, GameView, Module, Outcome, Tile, SLOTS};
use crate::gen::{
    arrival_text, carved, center, gen_tiles, in_corridor, in_room, lemma_center_bounds, room_h, room_w, room_x,
    room_y, sentinel_at, spec_initial, spec_new_with,
};
use crate::geom::{abs, manhattan, Pos};
use crate::replay::spec_replay;

verus! {

/// A loadout validation accepts: at most two modules, none twice.
pub open spec fn loadout_ok(l: Seq<Module>) -> bool {
    &&& l.len() <= SLOTS
    &&& forall|i: int, j: int| 0 <= j < i < l.len() ==> l[j] != l[i]
}

/// Room `r` lies in the box of its row and column.
proof fn lemma_room_box(seed: u64, r: int)
    requires
        0 <= r < 6,
    ensures
        2 + (r % 3) * 14 <= room_x(seed, r),
        room_x(seed, r) + room_w(seed, r) <= 13 + (r % 3) * 14,
        2 + (r / 3) * 13 <= room_y(seed, r),
        room_y(seed, r) + room_h(seed, r) <= 12 + (r / 3) * 13,
        room_w(seed, r) >= 8,
        room_h(seed, r) >= 7,
        center(seed, r).x == room_x(seed, r) + room_w(seed, r) / 2,
        center(seed, r).y == room_y(seed, r) + room_h(seed, r) / 2,
{
    lemma_center_bounds(seed, r);
}

proof fn lemma_carved_room(seed: u64, n: int, r: int, x: int, y: int)
    requires
        0 <= r < n,
        in_room(seed, r, x, y),
    ensures
        carved(seed, n, x, y),
    decreases n,
{
    if r < n - 1 {
        lemma_carved_room(seed, n - 1, r, x, y);
    }
}

proof fn lemma_carved_corridor(seed: u64, n: int, r: int, x: int, y: int)
    requires
        1 <= r < n,
        in_corridor(seed, r, x, y),
    ensures
        carved(seed, n, x, y),
    decreases n,
{
    if r < n - 1 {
        lemma_carved_corridor(seed, n - 1, r, x, y);
    }
}

/// A carved cell of the grid is floor on the generated map.
proof fn lemma_carved_floor(seed: u64, x: int, y: int)
    requires
        in_grid(x, y),
        carved(seed, 6, x, y),
    ensures
        floor_in(gen_tiles(seed), x, y),
{
    lemma_cell_pos(x, y);
}

/// Every cell of room `r` is floor.
proof fn lemma_room_floor(seed: u64, r: int, x: int, y: int)
    requires
        0 <= r < 6,
        in_room(seed, r, x, y),
    ensures
        floor_in(gen_tiles(seed), x, y),
{
    lemma_room_box(seed, r);
    lemma_carved_room(seed, 6, r, x, y);
    lemma_carved_floor(seed, x, y);
}

/// The centre of a room and the tile of its sentinel lie inside it.
proof fn lemma_inside(seed: u64, r: int)
    requires
        0 <= r < 6,
    ensures
        in_room(seed, r, center(seed, r).x as int, center(seed, r).y as int),
        in_room(seed, r, sentinel_at(seed, r).pos.x as int, sentinel_at(seed, r).pos.y as int),
{
    lemma_room_box(seed, r);
}

/// Different rooms share no tile.
proof fn lemma_rooms_apart(seed: u64, r: int, s: int, x1: int, y1: int, x2: int, y2: int)
    requires
        0 <= r < 6,
        0 <= s < 6,
        r != s,
        in_room(seed, r, x1, y1),
        in_room(seed, s, x2, y2),
    ensures
        x1 != x2 || y1 != y2,
{
    lemma_room_box(seed, r);
    lemma_room_box(seed, s);
}

proof fn lemma_landmarks_on_floor(seed: u64)
    ensures
        forall|r: int|
            0 <= r < 6 ==> floor_in(gen_tiles(seed), #[trigger] center(seed, r).x as int, center(seed, r).y as int)
                && floor_in(gen_tiles(seed), sentinel_at(seed, r).pos.x as int, sentinel_at(seed, r).pos.y as int),
{
    assert forall|r: int| 0 <= r < 6 implies floor_in(gen_tiles(seed), #[trigger] center(seed, r).x as int, center(seed, r).y as int)
        && floor_in(gen_tiles(seed), sentinel_at(seed, r).pos.x as int, sentinel_at(seed, r).pos.y as int) by {
        lemma_inside(seed, r);
        lemma_room_floor(seed, r, center(seed, r).x as int, center(seed, r).y as int);
        lemma_room_floor(seed, r, sentinel_at(seed, r).pos.x as int, sentinel_at(seed, r).pos.y as int);
    }
}

proof fn lemma_sentinels_apart(seed: u64)
    ensures
        forall|r: int, s: int|
            0 <= r < 6 && 0 <= s < 6 && r != s ==> #[trigger] sentinel_at(seed, r).pos != #[trigger] sentinel_at(seed, s).pos
                && sentinel_at(seed, r).pos != center(seed, s),
{
    assert forall|r: int, s: int| 0 <= r < 6 && 0 <= s < 6 && r != s implies #[trigger] sentinel_at(seed, r).pos
        != #[trigger] sentinel_at(seed, s).pos && sentinel_at(seed, r).pos != center(seed, s) by {
        lemma_inside(seed, r);
        lemma_inside(seed, s);
        lemma_rooms_apart(
            seed,
            r,
            s,
            sentinel_at(seed, r).pos.x as int,
            sentinel_at(seed, r).pos.y as int,
            sentinel_at(seed, s).pos.x as int,
            sentinel_at(seed, s).pos.y as int,
        );
        lemma_rooms_apart(
            seed,
            r,
            s,
            sentinel_at(seed, r).pos.x as int,
            sentinel_at(seed, r).pos.y as int,
            center(seed, s).x as int,
            center(seed, s).y as int,
        );
    }
}

#[verifier::rlimit(80)]
proof fn lemma_initial_sound(seed: u64, loadout: Seq<Module>)
    requires
        loadout_ok(loadout),
    ensures
        sound_state(spec_initial(seed, loadout)),
{
    let g = spec_initial(seed, loadout);
    lemma_landmarks_on_floor(seed);
    lemma_sentinels_apart(seed);
    let c0 = center(seed, 0);
    assert(floor_in(gen_tiles(seed), c0.x as int, c0.y as int));
    let c5 = center(seed, 5);
    assert(floor_in(gen_tiles(seed), c5.x as int, c5.y as int));
    assert forall|i: int| 0 <= i < g.archives.len() implies (#[trigger] g.archives[i]).id < 3 && g.floor(
        g.archives[i].pos,
    ) by {
        let c = center(seed, i + 2);
        assert(floor_in(gen_tiles(seed), c.x as int, c.y as int));
    }
    assert(archives_ok(g));
    assert forall|i: int| 0 <= i < g.enemies.len() implies g.floor((#[trigger] g.enemies[i]).pos)
        && g.enemies[i].pos != g.player && 1 <= g.enemies[i].hp <= 8 by {
        assert(g.enemies[i] == sentinel_at(seed, i + 1));
        assert(sentinel_at(seed, i + 1).pos != center(seed, 0));
        let p = sentinel_at(seed, i + 1).pos;
        assert(floor_in(gen_tiles(seed), p.x as int, p.y as int));
    }
    assert forall|i: int, j: int|
        0 <= i < g.enemies.len() && 0 <= j < g.enemies.len() && i != j implies (#[trigger] g.enemies[i]).pos
        != (#[trigger] g.enemies[j]).pos by {
        assert(g.enemies[i] == sentinel_at(seed, i + 1));
        assert(g.enemies[j] == sentinel_at(seed, j + 1));
        assert(sentinel_at(seed, i + 1).pos != sentinel_at(seed, j + 1).pos);
    }
    assert(sentinels_ok(g));
    assert(count_recovered(g.archives) == 0) by {
        reveal_with_fuel(count_recovered, 4);
    }
    assert(!crate::check::duplicate_module(g));
}

/// A generated expedition with an acceptable loadout passes validation.
pub proof fn law_generated_expeditions_are_valid(seed: u64, loadout: Seq<Module>)
    requires
        loadout_ok(loadout),
    ensures
        valid(spec_new_with(seed, loadout)),
        spec_new_with(seed, loadout).standing.len() == 2,
{
    let g = spec_initial(seed, loadout);
    lemma_initial_sound(seed, loadout);
    lemma_log_ok(g, "arrival"@, arrival_text());
    lemma_view_ok(g.log("arrival"@, arrival_text()), 7);
    lemma_valid_is_consistent(spec_new_with(seed, loadout));
}

/// Every state an expedition reaches by the rules, from a generated start
/// with an acceptable loadout, passes validation. In particular an escape
/// always comes with the relay restored and all three archives recovered.
pub proof fn law_every_run_stays_valid(seed: u64, loadout: Seq<Module>, attempts: Seq<Action>)
    requires
        loadout_ok(loadout),
    ensures
        valid(spec_replay(seed, loadout, attempts)),
        spec_replay(seed, loadout, attempts).standing.len() == 2,
        spec_replay(seed, loadout, attempts).outcome == Outcome::Escaped ==> spec_replay(
            seed,
            loadout,
            attempts,
        ).restored && count_recovered(spec_replay(seed, loadout, attempts).archives) == 3,
    decreases attempts.len(),
{
    if attempts.len() == 0 {
        law_generated_expeditions_are_valid(seed, loadout);
    } else {
        law_every_run_stays_valid(seed, loadout, attempts.drop_last());
        law_rules_keep_the_expedition_valid(spec_replay(seed, loadout, attempts.drop_last()), attempts.last());
    }
    lemma_valid_is_consistent(spec_replay(seed, loadout, attempts));
}


/// `p` walks from `a` to `b` over floor of `tiles`, one orthogonal step at
/// a time.
#[verifier::opaque]
pub open spec fn walk(tiles: Seq<Tile>, p: Seq<Pos>, a: Pos, b: Pos) -> bool {
    &&& p.len() >= 1
    &&& p[0] == a
    &&& p.last() == b
    &&& forall|i: int| 0 <= i < p.len() ==> floor_in(tiles, (#[trigger] p[i]).x as int, p[i].y as int)
    &&& forall|i: int| 1 <= i < p.len() ==> manhattan(p[i - 1], #[trigger] p[i]) == 1
}

/// The tiles along `a`'s row from `a` (excluded) to `b`'s column.
pub open spec fn row_part(a: Pos, b: Pos) -> Seq<Pos> {
    Seq::new(
        abs(b.x - a.x) as nat,
        |i: int| Pos { x: (if a.x <= b.x { a.x + i + 1 } else { a.x - i - 1 }) as i32, y: a.y },
    )
}

/// The tiles along `b`'s column from `a`'s row (excluded) to `b`.
pub open spec fn column_part(a: Pos, b: Pos) -> Seq<Pos> {
    Seq::new(
        abs(b.y - a.y) as nat,
        |i: int| Pos { x: b.x, y: (if a.y <= b.y { a.y + i + 1 } else { a.y - i - 1 }) as i32 },
    )
}

/// The tiles after `a` on the corridor from `a` to `b`.
pub open spec fn leg(a: Pos, b: Pos) -> Seq<Pos> {
    row_part(a, b) + column_part(a, b)
}

/// The way from the start through the centres of rooms 1 to `k`, along the
/// corridors that join them.
pub open spec fn tour(seed: u64, k: int) -> Seq<Pos>
    decreases k,
{
    if k <= 0 {
        seq![center(seed, 0)]
    } else {
        tour(seed, k - 1) + leg(center(seed, k - 1), center(seed, k))
    }
}

/// `(x, y)` lies on the L-shaped corridor from `a` to `b`.
pub open spec fn on_corridor(a: Pos, b: Pos, x: int, y: int) -> bool {
    ||| (y == a.y && (if a.x < b.x { a.x <= x <= b.x } else { b.x <= x <= a.x }))
    ||| (x == b.x && (if a.y < b.y { a.y <= y <= b.y } else { b.y <= y <= a.y }))
}

/// The leg from `a` to `b` follows the corridor one step at a time and ends at `b`.
proof fn lemma_leg_shape(a: Pos, b: Pos)
    ensures
        ({
            let q = leg(a, b);
            &&& forall|i: int| 0 <= i < q.len() ==> on_corridor(a, b, (#[trigger] q[i]).x as int, q[i].y as int)
            &&& forall|i: int| 1 <= i < q.len() ==> manhattan(q[i - 1], #[trigger] q[i]) == 1
            &&& q.len() > 0 ==> manhattan(a, q[0]) == 1 && q.last() == b
            &&& q.len() == 0 ==> a == b
        }),
{
    let h = row_part(a, b);
    let v = column_part(a, b);
    let q = leg(a, b);
    assert forall|i: int| 0 <= i < q.len() implies on_corridor(a, b, (#[trigger] q[i]).x as int, q[i].y as int) by {
        if i < h.len() {
            assert(q[i] == h[i]);
        } else {
            assert(q[i] == v[i - h.len()]);
        }
    }
    assert forall|i: int| 1 <= i < q.len() implies manhattan(q[i - 1], #[trigger] q[i]) == 1 by {
        if i < h.len() {
            assert(q[i] == h[i] && q[i - 1] == h[i - 1]);
        } else if i == h.len() {
            assert(q[i] == v[0] && q[i - 1] == h[i - 1]);
        } else {
            assert(q[i] == v[i - h.len()] && q[i - 1] == v[i - 1 - h.len()]);
        }
    }
    if q.len() > 0 {
        if h.len() > 0 {
            assert(q[0] == h[0]);
        } else {
            assert(q[0] == v[0]);
        }
        if v.len() > 0 {
            assert(q.last() == v.last());
        } else {
            assert(q.last() == h.last());
        }
    }
}

/// A tile on the corridor into room `r` is floor.
proof fn lemma_corridor_floor(seed: u64, r: int, x: int, y: int)
    requires
        1 <= r < 6,
        on_corridor(center(seed, r - 1), center(seed, r), x, y),
    ensures
        floor_in(gen_tiles(seed), x, y),
{
    lemma_center_bounds(seed, r - 1);
    lemma_center_bounds(seed, r);
    assert(in_corridor(seed, r, x, y));
    lemma_carved_corridor(seed, 6, r, x, y);
    lemma_carved_floor(seed, x, y);
}

/// The corridor into room `r` is floor, step by step, and ends at its centre.
proof fn lemma_leg(seed: u64, r: int)
    requires
        1 <= r < 6,
    ensures
        ({
            let a = center(seed, r - 1);
            let b = center(seed, r);
            let q = leg(a, b);
            &&& forall|i: int| 0 <= i < q.len() ==> floor_in(gen_tiles(seed), (#[trigger] q[i]).x as int, q[i].y as int)
            &&& forall|i: int| 1 <= i < q.len() ==> manhattan(q[i - 1], #[trigger] q[i]) == 1
            &&& q.len() > 0 ==> manhattan(a, q[0]) == 1 && q.last() == b
            &&& q.len() == 0 ==> a == b
        }),
{
    let a = center(seed, r - 1);
    let b = center(seed, r);
    lemma_leg_shape(a, b);
    let q = leg(a, b);
    assert forall|i: int| 0 <= i < q.len() implies floor_in(gen_tiles(seed), (#[trigger] q[i]).x as int, q[i].y as int) by {
        lemma_corridor_floor(seed, r, q[i].x as int, q[i].y as int);
    }
}

/// Where a new expedition puts the start and the objectives.
proof fn lemma_new_layout(seed: u64, loadout: Seq<Module>)
    ensures
        spec_new_with(seed, loadout).tiles == gen_tiles(seed),
        spec_new_with(seed, loadout).player == center(seed, 0),
        spec_new_with(seed, loadout).relay == center(seed, 5),
        spec_new_with(seed, loadout).archives.len() == 3,
        forall|i: int| 0 <= i < 3 ==> #[trigger] spec_new_with(seed, loadout).archives[i].pos == center(seed, i + 2),
{
}

/// The tour through the first `k` rooms is a walk over floor.
proof fn lemma_tour(seed: u64, k: int)
    requires
        0 <= k < 6,
    ensures
        walk(gen_tiles(seed), tour(seed, k), center(seed, 0), center(seed, k)),
    decreases k,
{
    reveal(walk);
    if k == 0 {
        lemma_landmarks_on_floor(seed);
        assert(floor_in(gen_tiles(seed), center(seed, 0).x as int, center(seed, 0).y as int));
    } else {
        lemma_tour(seed, k - 1);
        lemma_leg(seed, k);
        let p = tour(seed, k - 1);
        let q = leg(center(seed, k - 1), center(seed, k));
        let t = tour(seed, k);
        assert(t == p + q);
        assert forall|i: int| 0 <= i < t.len() implies floor_in(gen_tiles(seed), (#[trigger] t[i]).x as int, t[i].y as int) by {
            if i < p.len() {
                assert(t[i] == p[i]);
            } else {
                assert(t[i] == q[i - p.len()]);
            }
        }
        assert forall|i: int| 1 <= i < t.len() implies manhattan(t[i - 1], #[trigger] t[i]) == 1 by {
            if i < p.len() {
                assert(t[i] == p[i] && t[i - 1] == p[i - 1]);
            } else if i == p.len() {
                assert(t[i] == q[0] && t[i - 1] == p.last());
            } else {
                assert(t[i] == q[i - p.len()] && t[i - 1] == q[i - 1 - p.len()]);
            }
        }
        if q.len() > 0 {
            assert(t.last() == q.last());
        } else {
            assert(t =~= p);
        }
        assert(t[0] == p[0]);
    }
}

/// Some walk over floor of `tiles` leads from `a` to `b`.
pub open spec fn reachable(tiles: Seq<Tile>, a: Pos, b: Pos) -> bool {
    exists|p: Seq<Pos>| walk(tiles, p, a, b)
}

/// In every generated expedition the relay and each archive can be walked
/// to from the start over floor.
pub proof fn law_generated_objectives_are_reachable(seed: u64, loadout: Seq<Module>)
    ensures
        reachable(spec_new_with(seed, loadout).tiles, spec_new_with(seed, loadout).player, spec_new_with(seed, loadout).relay),
        forall|i: int|
            0 <= i < spec_new_with(seed, loadout).archives.len() ==> reachable(
                spec_new_with(seed, loadout).tiles,
                spec_new_with(seed, loadout).player,
                #[trigger] spec_new_with(seed, loadout).archives[i].pos,
            ),
{
    lemma_new_layout(seed, loadout);
    lemma_tour(seed, 5);
    lemma_tour(seed, 2);
    lemma_tour(seed, 3);
    lemma_tour(seed, 4);
    let g = spec_new_with(seed, loadout);
    assert(walk(g.tiles, tour(seed, 5), g.player, g.relay));
    assert(reachable(g.tiles, g.player, g.relay));
    assert forall|i: int| 0 <= i < g.archives.len() implies reachable(g.tiles, g.player, #[trigger] g.archives[i].pos) by {
        assert(g.archives[i].pos == center(seed, i + 2));
        if i == 0 {
            assert(walk(g.tiles, tour(seed, 2), g.player, g.archives[i].pos));
        } else if i == 1 {
            assert(walk(g.tiles, tour(seed, 3), g.player, g.archives[i].pos));
        } else {
            assert(walk(g.tiles, tour(seed, 4), g.player, g.archives[i].pos));
        }
    }
}

} // verus!
