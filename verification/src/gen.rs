//! Seeded generation of an expedition: six rooms in two rows joined by
//! corridors, the lift and player in the first, archives in the middle
//! three, the relay in the last, a sentinel beside the centre of every room
//! but the first.
use vstd::prelude::*;
use vstd::slice::slice_to_vec;

use crate::game::{
    cell, in_grid, lemma_cell_pos, lemma_pos_cell, pos_of, Archive, Enemy, EventView, Game, GameView, Module,
    Outcome, Tile, CELLS, HEIGHT, START_ENERGY, WIDTH, spec_default_loadout, default_loadout,
};
use crate::geom::Pos;
use crate::sight::with_view;

verus! {

/// One xorshift step.
pub open spec fn xorshift(s: u64) -> u64 {
    let a = s ^ (s << 13u64);
    let b = a ^ (a >> 7u64);
    b ^ (b << 17u64)
}

/// The generator state after `n` draws from `seed` (a zero seed counts as 1).
pub open spec fn rng_state(seed: u64, n: nat) -> u64
    decreases n,
{
    if n == 0 {
        if seed < 1 { 1 } else { seed }
    } else {
        xorshift(rng_state(seed, (n - 1) as nat))
    }
}

/// Draw `n` mapped into `lo..hi`.
pub open spec fn roll(seed: u64, n: nat, lo: int, hi: int) -> int {
    lo + (rng_state(seed, n) % ((hi - lo) as u64)) as int
}

/// Left edge of room `r` (rooms are numbered row by row, three per row).
pub open spec fn room_x(seed: u64, r: int) -> int {
    2 + (r % 3) * 14 + roll(seed, (4 * r + 1) as nat, 0, 2)
}

pub open spec fn room_y(seed: u64, r: int) -> int {
    2 + (r / 3) * 13 + roll(seed, (4 * r + 2) as nat, 0, 2)
}

pub open spec fn room_w(seed: u64, r: int) -> int {
    roll(seed, (4 * r + 3) as nat, 8, 11)
}

pub open spec fn room_h(seed: u64, r: int) -> int {
    roll(seed, (4 * r + 4) as nat, 7, 10)
}

pub open spec fn center(seed: u64, r: int) -> Pos {
    Pos { x: (room_x(seed, r) + room_w(seed, r) / 2) as i32, y: (room_y(seed, r) + room_h(seed, r) / 2) as i32 }
}

pub open spec fn in_room(seed: u64, r: int, x: int, y: int) -> bool {
    &&& room_x(seed, r) <= x < room_x(seed, r) + room_w(seed, r)
    &&& room_y(seed, r) <= y < room_y(seed, r) + room_h(seed, r)
}

/// The L-shaped corridor from the centre of room `r - 1` to that of room
/// `r`: along the first centre's row, then along the second centre's column.
pub open spec fn in_corridor(seed: u64, r: int, x: int, y: int) -> bool {
    let a = center(seed, r - 1);
    let b = center(seed, r);
    ||| (y == a.y && (if a.x < b.x { a.x <= x <= b.x } else { b.x <= x <= a.x }))
    ||| (x == b.x && (if a.y < b.y { a.y <= y <= b.y } else { b.y <= y <= a.y }))
}

/// `(x, y)` is floor after carving the first `n` rooms and their corridors.
pub open spec fn carved(seed: u64, n: int, x: int, y: int) -> bool
    decreases n,
{
    if n <= 0 {
        false
    } else {
        carved(seed, n - 1, x, y) || in_room(seed, n - 1, x, y) || (n - 1 >= 1 && in_corridor(seed, n - 1, x, y))
    }
}

/// The generated map.
pub open spec fn gen_tiles(seed: u64) -> Seq<Tile> {
    Seq::new(
        CELLS as nat,
        |i: int| if carved(seed, 6, pos_of(i).x as int, pos_of(i).y as int) { Tile::Floor } else { Tile::Wall },
    )
}

pub open spec fn sentinel_at(seed: u64, r: int) -> Enemy {
    let c = center(seed, r);
    Enemy { pos: Pos { x: (c.x + 2) as i32, y: (c.y + 1) as i32 }, hp: if r == 5 { 8 } else { 6 } }
}

/// The expedition as generated, before the first field of view.
pub open spec fn spec_initial(seed: u64, loadout: Seq<Module>) -> GameView {
    GameView {
        seed,
        tiles: gen_tiles(seed),
        seen: Seq::new(CELLS as nat, |i: int| false),
        visible: Seq::new(CELLS as nat, |i: int| false),
        player: center(seed, 0),
        lift: center(seed, 0),
        relay: center(seed, 5),
        enemies: seq![
            sentinel_at(seed, 1),
            sentinel_at(seed, 2),
            sentinel_at(seed, 3),
            sentinel_at(seed, 4),
            sentinel_at(seed, 5),
        ],
        archives: seq![
            Archive { pos: center(seed, 2), id: 0, recovered: false },
            Archive { pos: center(seed, 3), id: 1, recovered: false },
            Archive { pos: center(seed, 4), id: 2, recovered: false },
        ],
        hp: 24,
        medkits: 3,
        energy: START_ENERGY,
        turn: 0,
        restored: false,
        outcome: Outcome::Exploring,
        events: Seq::empty(),
        chat: Seq::empty(),
        loadout,
        actions: Seq::empty(),
        replayable: true,
        kills: 0,
        standing: seq![0i32, 0i32],
    }
}

/// The arrival message.
pub open spec fn arrival_text() -> Seq<char> {
    "Surface lift reached. Recover three archives, restore the relay, and return here."@
}

/// A new expedition from `seed` with `loadout` fitted, as the player first
/// sees it.
pub open spec fn spec_new_with(seed: u64, loadout: Seq<Module>) -> GameView {
    with_view(spec_initial(seed, loadout).log("arrival"@, arrival_text()), 7)
}

struct Rng {
    state: u64,
}

impl Rng {
    fn next(&mut self) -> (r: u64)
        ensures
            r == xorshift(old(self).state),
            final(self).state == r,
    {
        self.state = self.state ^ (self.state << 13u64);
        self.state = self.state ^ (self.state >> 7u64);
        self.state = self.state ^ (self.state << 17u64);
        self.state
    }

    fn range(&mut self, lo: i32, hi: i32) -> (r: i32)
        requires
            0 <= lo < hi <= 100,
        ensures
            final(self).state == xorshift(old(self).state),
            r == lo + (final(self).state % ((hi - lo) as u64)) as int,
            lo <= r < hi,
    {
        let v = self.next();
        let m: u64 = v % ((hi - lo) as u64);
        lo + m as i32
    }
}

impl Game {
    /// Carve the rectangle `[x, x + w) x [y, y + h)` into floor.
    fn carve_rect(&mut self, x: i32, y: i32, w: i32, h: i32)
        requires
            old(self)@.sized(),
            0 <= x <= 100,
            0 <= y <= 100,
            0 <= w <= 100,
            0 <= h <= 100,
        ensures
            final(self)@ == (GameView { tiles: final(self)@.tiles, ..old(self)@ }),
            final(self)@.tiles.len() == old(self)@.tiles.len(),
            forall|i: int| CELLS <= i < old(self)@.tiles.len() ==> final(self)@.tiles[i] == old(self)@.tiles[i],
            forall|xx: int, yy: int|
                in_grid(xx, yy) ==> #[trigger] final(self)@.tiles[cell(xx, yy)] == (if x <= xx < x + w && y <= yy
                    < y + h { Tile::Floor } else { old(self)@.tiles[cell(xx, yy)] }),
    {
        let ghost g0 = self@;
        let mut yy: i32 = y;
        while yy < y + h
            invariant
                y <= yy <= y + h,
                0 <= x <= 100,
                0 <= y <= 100,
                0 <= w <= 100,
                0 <= h <= 100,
                self@ == (GameView { tiles: self@.tiles, ..g0 }),
                self@.tiles.len() == g0.tiles.len(),
                g0.sized(),
                forall|i: int| CELLS <= i < g0.tiles.len() ==> self@.tiles[i] == g0.tiles[i],
                forall|a: int, b: int|
                    in_grid(a, b) ==> #[trigger] self@.tiles[cell(a, b)] == (if x <= a < x + w && y <= b < yy {
                        Tile::Floor
                    } else {
                        g0.tiles[cell(a, b)]
                    }),
            decreases y + h - yy,
        {
            let mut xx: i32 = x;
            while xx < x + w
                invariant
                    y <= yy < y + h,
                    x <= xx <= x + w,
                    0 <= x <= 100,
                    0 <= y <= 100,
                    0 <= w <= 100,
                    0 <= h <= 100,
                    self@ == (GameView { tiles: self@.tiles, ..g0 }),
                    self@.tiles.len() == g0.tiles.len(),
                    g0.sized(),
                    forall|i: int| CELLS <= i < g0.tiles.len() ==> self@.tiles[i] == g0.tiles[i],
                    forall|a: int, b: int|
                        in_grid(a, b) ==> #[trigger] self@.tiles[cell(a, b)] == (if x <= a < x + w && (y <= b < yy
                            || (b == yy && a < xx)) {
                            Tile::Floor
                        } else {
                            g0.tiles[cell(a, b)]
                        }),
                decreases x + w - xx,
            {
                if xx < WIDTH && yy < HEIGHT {
                    let i = (yy * WIDTH + xx) as usize;
                    proof {
                        lemma_cell_pos(xx as int, yy as int);
                    }
                    self.tiles.set(i, Tile::Floor);
                    proof {
                        assert forall|a: int, b: int| in_grid(a, b) implies #[trigger] self@.tiles[cell(a, b)] == (
                        if x <= a < x + w && (y <= b < yy || (b == yy && a < xx + 1)) {
                            Tile::Floor
                        } else {
                            g0.tiles[cell(a, b)]
                        }) by {
                            lemma_cell_pos(a, b);
                        }
                    }
                }
                xx = xx + 1;
            }
            yy = yy + 1;
        }
    }

    /// Carve the corridor from `a` along `a`'s row to `b`'s column, then
    /// along that column to `b`.
    fn corridor(&mut self, a: Pos, b: Pos)
        requires
            old(self)@.sized(),
            0 <= a.x <= 50,
            0 <= a.y <= 50,
            0 <= b.x <= 50,
            0 <= b.y <= 50,
        ensures
            final(self)@ == (GameView { tiles: final(self)@.tiles, ..old(self)@ }),
            final(self)@.tiles.len() == old(self)@.tiles.len(),
            forall|i: int| CELLS <= i < old(self)@.tiles.len() ==> final(self)@.tiles[i] == old(self)@.tiles[i],
            forall|xx: int, yy: int|
                in_grid(xx, yy) ==> #[trigger] final(self)@.tiles[cell(xx, yy)] == (if (yy == a.y && (if a.x < b.x {
                    a.x <= xx <= b.x
                } else {
                    b.x <= xx <= a.x
                })) || (xx == b.x && (if a.y < b.y {
                    a.y <= yy <= b.y
                } else {
                    b.y <= yy <= a.y
                })) { Tile::Floor } else { old(self)@.tiles[cell(xx, yy)] }),
    {
        let (x0, x1) = if a.x < b.x { (a.x, b.x) } else { (b.x, a.x) };
        let (y0, y1) = if a.y < b.y { (a.y, b.y) } else { (b.y, a.y) };
        self.carve_rect(x0, a.y, x1 - x0 + 1, 1);
        self.carve_rect(b.x, y0, 1, y1 - y0 + 1);
    }

    pub fn new(seed: u64) -> (g: Self)
        ensures
            g@ == spec_new_with(seed, spec_default_loadout()),
    {
        Self::new_with(seed, default_loadout().as_slice())
    }

    /// Generate the expedition of `seed` with `loadout` fitted.
    pub fn new_with(seed: u64, loadout: &[Module]) -> (g: Self)
        ensures
            g@ == spec_new_with(seed, loadout@),
    {
        let mut rng = Rng { state: if seed < 1 { 1 } else { seed } };
        let mut g = Game {
            seed,
            tiles: vec![Tile::Wall; CELLS],
            seen: vec![false; CELLS],
            visible: vec![false; CELLS],
            player: Pos { x: 0, y: 0 },
            lift: Pos { x: 0, y: 0 },
            relay: Pos { x: 0, y: 0 },
            enemies: Vec::new(),
            archives: Vec::new(),
            hp: 24,
            medkits: 3,
            energy: START_ENERGY,
            turn: 0,
            restored: false,
            outcome: Outcome::Exploring,
            events: Vec::new(),
            chat: Vec::new(),
            loadout: slice_to_vec(loadout),
            actions: Vec::new(),
            replayable: true,
            kills: 0,
            standing: [0, 0],
        };
        let ghost g0 = g@;
        let mut centers: Vec<Pos> = Vec::new();
        let mut r: usize = 0;
        while r < 6
            invariant
                r <= 6,
                rng.state == rng_state(seed, (4 * r) as nat),
                centers@.len() == r,
                forall|j: int| 0 <= j < r ==> #[trigger] centers@[j] == center(seed, j),
                g@ == (GameView { tiles: g@.tiles, ..g0 }),
                g@.tiles.len() == CELLS,
                g0.sized(),
                forall|a: int, b: int|
                    in_grid(a, b) ==> #[trigger] g@.tiles[cell(a, b)] == (if carved(seed, r as int, a, b) {
                        Tile::Floor
                    } else {
                        Tile::Wall
                    }),
            decreases 6 - r,
        {
            let row: i32 = (r / 3) as i32;
            let col: i32 = (r % 3) as i32;
            let ox = rng.range(0, 2);
            let oy = rng.range(0, 2);
            let w = rng.range(8, 11);
            let h = rng.range(7, 10);
            let x = 2 + col * 14 + ox;
            let y = 2 + row * 13 + oy;
            proof {
                assert(rng_state(seed, (4 * r + 1) as nat) == xorshift(rng_state(seed, (4 * r) as nat)));
                assert(rng_state(seed, (4 * r + 2) as nat) == xorshift(rng_state(seed, (4 * r + 1) as nat)));
                assert(rng_state(seed, (4 * r + 3) as nat) == xorshift(rng_state(seed, (4 * r + 2) as nat)));
                assert(rng_state(seed, (4 * r + 4) as nat) == xorshift(rng_state(seed, (4 * r + 3) as nat)));
                assert(x == room_x(seed, r as int));
                assert(y == room_y(seed, r as int));
                assert(w == room_w(seed, r as int));
                assert(h == room_h(seed, r as int));
            }
            proof {
                lemma_center_bounds(seed, r as int);
            }
            g.carve_rect(x, y, w, h);
            let p = Pos { x: x + w / 2, y: y + h / 2 };
            if r > 0 {
                let prev = centers[r - 1];
                proof {
                    lemma_center_bounds(seed, r - 1);
                }
                g.corridor(prev, p);
            }
            centers.push(p);
            r = r + 1;
            proof {
                assert(rng.state == rng_state(seed, (4 * r) as nat));
            }
        }
        g.player = centers[0];
        g.lift = centers[0];
        g.relay = centers[5];
        let ghost ga = g@;
        let mut id: usize = 0;
        while id < 3
            invariant
                id <= 3,
                g@ == (GameView { archives: g@.archives, ..ga }),
                centers@.len() == 6,
                forall|j: int| 0 <= j < 6 ==> #[trigger] centers@[j] == center(seed, j),
                g.archives@.len() == id,
                forall|j: int|
                    0 <= j < id ==> #[trigger] g.archives@[j] == (Archive {
                        pos: center(seed, j + 2),
                        id: j as usize,
                        recovered: false,
                    }),
            decreases 3 - id,
        {
            g.archives.push(Archive { pos: centers[id + 2], id, recovered: false });
            id = id + 1;
        }
        let ghost gb = g@;
        let mut i: usize = 1;
        while i < 6
            invariant
                1 <= i <= 6,
                g@ == (GameView { enemies: g@.enemies, ..gb }),
                gb.enemies.len() == 0,
                centers@.len() == 6,
                forall|j: int| 0 <= j < 6 ==> #[trigger] centers@[j] == center(seed, j),
                g.enemies@.len() == i - 1,
                forall|j: int| 0 <= j < i - 1 ==> #[trigger] g.enemies@[j] == sentinel_at(seed, j + 1),
            decreases 6 - i,
        {
            let c = centers[i];
            proof {
                lemma_center_bounds(seed, i as int);
            }
            g.enemies.push(Enemy { pos: Pos { x: c.x + 2, y: c.y + 1 }, hp: if i == 5 { 8 } else { 6 } });
            i = i + 1;
        }
        proof {
            let s = spec_initial(seed, loadout@);
            assert(g.archives@ =~= s.archives);
            assert(g.enemies@ =~= s.enemies);
            assert forall|k: int| 0 <= k < CELLS implies g@.tiles[k] == s.tiles[k] by {
                lemma_pos_cell(k);
            }
            assert(g@.tiles =~= s.tiles);
            assert(g@.seen =~= s.seen);
            assert(g@.visible =~= s.visible);
            assert(g@.events =~= s.events);
            assert(g@.chat =~= s.chat);
            assert(g@.standing =~= s.standing);
            assert(g@ == s);
        }
        g.log(
            "arrival",
            "Surface lift reached. Recover three archives, restore the relay, and return here.",
        );
        g.update_visibility(7);
        g
    }
}

/// Room `r` lies inside the map's interior, as does its centre and the
/// sentinel beside it.
pub proof fn lemma_center_bounds(seed: u64, r: int)
    requires
        0 <= r < 6,
    ensures
        2 <= room_x(seed, r),
        room_x(seed, r) + room_w(seed, r) <= 41,
        2 <= room_y(seed, r),
        room_y(seed, r) + room_h(seed, r) <= 25,
        8 <= room_w(seed, r) <= 10,
        7 <= room_h(seed, r) <= 9,
        0 <= center(seed, r).x <= 36,
        0 <= center(seed, r).y <= 20,
{
}

} // verus!
