//! Deterministic replay: the seed, the loadout and the action log rebuild an
//! expedition.
use vstd::prelude::*;

use crate::game::{count_recovered, Action, Archive, Enemy, Game, GameView, Module, Outcome, Tile, CELLS};
use crate::gen::{spec_new_with, lemma_center_bounds, center, sentinel_at};
use crate::geom::{manhattan, Pos};
use crate::rules::{
    enemy_phase, finish_turn, interact_ok, adjacent_archive, spec_apply, spec_step, spec_wait, spec_heal,
    spec_scan, spec_analyze, spec_interact, mark_around, find_enemy, lemma_find_enemy, nearest,
};
use crate::sight::{clear_line, with_view};

verus! {

/// The state after the actions `acts`, in order, from the expedition of
/// `seed` with `loadout` fitted.
pub open spec fn spec_replay(seed: u64, loadout: Seq<Module>, acts: Seq<Action>) -> GameView
    decreases acts.len(),
{
    if acts.len() == 0 {
        spec_new_with(seed, loadout)
    } else {
        spec_apply(spec_replay(seed, loadout, acts.drop_last()), acts.last())
    }
}

/// What replay checks: the map, the explored map, position, landmarks,
/// health, supplies, clock, outcome, relay, kills, standing, every archive
/// and every sentinel agree. Only what is in sight, the history, the
/// conversation and the log itself are left out.
pub open spec fn same_run(r: GameView, g: GameView) -> bool {
    &&& r.tiles == g.tiles
    &&& r.seen == g.seen
    &&& r.lift == g.lift
    &&& r.relay == g.relay
    &&& r.archives == g.archives
    &&& r.player == g.player
    &&& r.hp == g.hp
    &&& r.medkits == g.medkits
    &&& r.energy == g.energy
    &&& r.turn == g.turn
    &&& r.outcome == g.outcome
    &&& r.restored == g.restored
    &&& r.kills == g.kills
    &&& r.standing == g.standing
    &&& r.enemies == g.enemies
}

/// The log is a complete, faithful trace of `g`.
pub open spec fn spec_replay_matches(g: GameView) -> bool {
    g.replayable && same_run(spec_replay(g.seed, g.loadout, g.actions), g)
}

/// The bounds every rule keeps on a generated expedition: the full map, health
/// within 0..=24, sentinels with 1..=8 health, standing within -20..=20,
/// kills and remaining sentinels at most five together, and known records.
pub open spec fn sound(g: GameView) -> bool {
    &&& g.tiles.len() == CELLS
    &&& g.seen.len() == CELLS
    &&& g.visible.len() == CELLS
    &&& 0 <= g.hp <= 24
    &&& forall|i: int| 0 <= i < g.enemies.len() ==> 1 <= #[trigger] g.enemies[i].hp <= 8
    &&& g.standing.len() == 2
    &&& forall|i: int| 0 <= i < 2 ==> -20 <= #[trigger] g.standing[i] <= 20
    &&& g.kills + g.enemies.len() <= 5
    &&& forall|i: int| 0 <= i < g.archives.len() ==> #[trigger] g.archives[i].id < 3
}

proof fn lemma_view_sound(g: GameView, r: int)
    requires
        sound(g),
    ensures
        sound(with_view(g, r)),
        with_view(g, r).turn == g.turn,
{
}

proof fn lemma_phase_sound(g: GameView, i: int)
    requires
        sound(g),
    ensures
        sound(enemy_phase(g, i)),
        enemy_phase(g, i).turn == g.turn,
    decreases g.enemies.len() - i,
{
    if i < 0 || i >= g.enemies.len() {
    } else {
        let p = g.enemies[i].pos;
        let d = manhattan(p, g.player);
        if d == 1 {
            if g.has(Module::Shield) && g.energy > 0 {
                lemma_phase_sound(
                    GameView { energy: (g.energy - 1) as u32, ..g }.log(
                        "shield"@,
                        "Shield Cell absorbed a sentinel strike (-1 power)."@,
                    ),
                    i + 1,
                );
            } else {
                let g1 = GameView { hp: (g.hp - 1) as i32, ..g }.log(
                    "damage"@,
                    "A sentinel strikes you for 1 damage."@,
                );
                if g1.hp > 0 {
                    lemma_phase_sound(g1, i + 1);
                }
            }
        } else if d <= 7 && clear_line(g.tiles, p, g.player) {
            match g.chase(p) {
                Some(q) => {
                    let g2 = GameView { enemies: g.enemies.update(i, Enemy { pos: q, ..g.enemies[i] }), ..g };
                    assert forall|j: int| 0 <= j < g2.enemies.len() implies 1 <= #[trigger] g2.enemies[j].hp <= 8 by {
                        assert(g2.enemies[j].hp == g.enemies[j].hp);
                    }
                    lemma_phase_sound(g2, i + 1);
                },
                None => lemma_phase_sound(g, i + 1),
            }
        } else {
            lemma_phase_sound(g, i + 1);
        }
    }
}

proof fn lemma_finish_sound(g: GameView)
    requires
        sound(g),
    ensures
        sound(finish_turn(g)),
        finish_turn(g).turn == g.turn + 1 || g.turn == u32::MAX,
{
    let g1 = GameView { turn: (g.turn + 1) as u32, ..g };
    lemma_phase_sound(g1, 0);
    lemma_view_sound(enemy_phase(g1, 0), 7);
}

proof fn lemma_standing_sound(g: GameView, f: crate::game::Faction, by: int)
    requires
        sound(g),
    ensures
        sound(g.shift_standing(f, by)),
        g.shift_standing(f, by).turn == g.turn,
{
    let r = g.shift_standing(f, by);
    assert forall|i: int| 0 <= i < 2 implies -20 <= #[trigger] r.standing[i] <= 20 by {
        if i != f.slot() {
            assert(r.standing[i] == g.standing[i]);
        }
    }
}

proof fn lemma_step_sound(g: GameView, dx: i32, dy: i32)
    requires
        sound(g),
        g.turn < u32::MAX,
    ensures
        sound(spec_step(g, dx, dy)),
        g.turn <= spec_step(g, dx, dy).turn <= g.turn + 1,
{
    let nx = g.player.x + dx;
    let ny = g.player.y + dy;
    if g.outcome != Outcome::Exploring || crate::geom::abs(dx as int) + crate::geom::abs(dy as int) != 1
        || !g.floor_at(nx, ny) {
    } else {
        let next = Pos { x: nx as i32, y: ny as i32 };
        let r1 = g.record(Action::Move(dx, dy));
        lemma_find_enemy(r1.enemies, next, 0);
        match find_enemy(r1.enemies, next, 0) {
            Some(i) => {
                let h = r1.enemies[i].hp - 3;
                let ga = GameView {
                    enemies: r1.enemies.update(i, Enemy { hp: h as i32, ..r1.enemies[i] }),
                    ..r1
                }.log("combat"@, "You hit a sentinel for 3 damage."@);
                if h <= 0 {
                    let gb = GameView { enemies: ga.enemies.remove(i), kills: (ga.kills + 1) as u32, ..ga }.log(
                        "combat"@,
                        "Sentinel disabled."@,
                    );
                    assert forall|j: int| 0 <= j < gb.enemies.len() implies 1 <= #[trigger] gb.enemies[j].hp <= 8 by {
                        if j < i {
                            assert(gb.enemies[j] == r1.enemies[j]);
                        } else {
                            assert(gb.enemies[j] == r1.enemies[j + 1]);
                        }
                    }
                    assert(sound(gb));
                    lemma_standing_sound(gb, crate::game::Faction::Custodians, -1);
                    lemma_finish_sound(gb.shift_standing(crate::game::Faction::Custodians, -1));
                } else {
                    assert forall|j: int| 0 <= j < ga.enemies.len() implies 1 <= #[trigger] ga.enemies[j].hp <= 8 by {
                        if j != i {
                            assert(ga.enemies[j] == r1.enemies[j]);
                        }
                    }
                    assert(sound(ga));
                    lemma_finish_sound(ga);
                }
            },
            None => {
                lemma_finish_sound(GameView { player: next, ..r1 });
            },
        }
    }
}

proof fn lemma_heal_sound(g: GameView)
    requires
        sound(g),
        g.turn < u32::MAX,
    ensures
        sound(spec_heal(g)),
        g.turn <= spec_heal(g).turn <= g.turn + 1,
{
    if g.outcome == Outcome::Exploring && g.medkits != 0 && g.hp != 24 {
        let g1 = g.record(Action::Heal);
        let g2 = GameView {
            medkits: (g1.medkits - 1) as u32,
            hp: if g1.hp + 10 < 24 { (g1.hp + 10) as i32 } else { 24 },
            ..g1
        }.log("healing"@, "Used a medkit: restored up to 10 health."@);
        lemma_finish_sound(g2);
    }
}

proof fn lemma_scan_sound(g: GameView)
    requires
        sound(g),
        g.turn < u32::MAX,
    ensures
        sound(spec_scan(g)),
        g.turn <= spec_scan(g).turn <= g.turn + 1,
{
    if g.outcome == Outcome::Exploring && g.has(Module::Scanner) && g.energy >= 1 {
        let g1 = g.record(Action::Scan);
        let g2 = GameView { energy: (g1.energy - 1) as u32, ..g1 }.log(
            "scan"@,
            "Scanner pulse extends sight until your next action. Walls still block it."@,
        );
        lemma_finish_sound(g2);
        lemma_view_sound(finish_turn(g2), 11);
    }
}

proof fn lemma_analyze_sound(g: GameView)
    requires
        sound(g),
        g.turn < u32::MAX,
    ensures
        sound(spec_analyze(g)),
        g.turn <= spec_analyze(g).turn <= g.turn + 1,
{
    if g.outcome == Outcome::Exploring && g.has(Module::Analyzer) && g.energy >= 2 {
        match nearest(g.archives, g.player, g.archives.len() as int) {
            None => {},
            Some(k) => {
                let g1 = g.record(Action::Analyze);
                let t = g.archives[k].pos;
                let g2 = GameView { energy: (g1.energy - 2) as u32, seen: mark_around(g1.seen, t), ..g1 };
                let g3 = g2.log(
                    "analysis"@,
                    "Analyzer pinged an archive "@ + crate::text::decimal(manhattan(g.player, t))
                        + " tiles away, to the "@ + crate::rules::direction(t.x - g.player.x, t.y - g.player.y)
                        + ". It is now on your map."@,
                );
                lemma_finish_sound(g3);
            },
        }
    }
}

/// Every action keeps a sound state sound and advances the clock by at most
/// one turn.
pub proof fn lemma_apply_sound(g: GameView, a: Action)
    requires
        sound(g),
        g.turn < u32::MAX,
    ensures
        sound(spec_apply(g, a)),
        g.turn <= spec_apply(g, a).turn <= g.turn + 1,
{
    reveal(spec_apply);
    match a {
        Action::Move(dx, dy) => lemma_step_sound(g, dx, dy),
        Action::Wait => {
            if g.outcome == Outcome::Exploring {
                lemma_finish_sound(g.record(Action::Wait));
            }
        },
        Action::Heal => lemma_heal_sound(g),
        Action::Scan => lemma_scan_sound(g),
        Action::Analyze => lemma_analyze_sound(g),
        Action::Interact => {
            if g.outcome == Outcome::Exploring {
                lemma_interact_sound(g);
            }
        },
    }
}

proof fn lemma_adjacent_archive(a: Seq<crate::game::Archive>, p: Pos, n: int)
    requires
        n <= a.len(),
    ensures
        adjacent_archive(a, p, n) matches Some(i) ==> 0 <= i < n,
    decreases n,
{
    if n > 0 {
        lemma_adjacent_archive(a, p, n - 1);
    }
}

proof fn lemma_nearest(a: Seq<crate::game::Archive>, p: Pos, n: int)
    requires
        n <= a.len(),
    ensures
        nearest(a, p, n) matches Some(i) ==> 0 <= i < n,
    decreases n,
{
    if n > 0 {
        lemma_nearest(a, p, n - 1);
    }
}

proof fn lemma_interact_sound(g: GameView)
    requires
        sound(g),
        g.turn < u32::MAX,
        g.outcome == Outcome::Exploring,
    ensures
        sound(spec_interact(g)),
        g.turn <= spec_interact(g).turn <= g.turn + 1,
{
    lemma_adjacent_archive(g.archives, g.player, g.archives.len() as int);
    match adjacent_archive(g.archives, g.player, g.archives.len() as int) {
        Some(i) => {
            let id = g.archives[i].id;
            let g1 = GameView {
                archives: g.archives.update(i, crate::game::Archive { recovered: true, ..g.archives[i] }),
                ..g.record(Action::Interact)
            }.log("archive"@, crate::game::spec_record(id as int));
            assert forall|j: int| 0 <= j < g1.archives.len() implies #[trigger] g1.archives[j].id < 3 by {
                assert(g1.archives[j].id == g.archives[j].id);
            }
            assert(sound(g1));
            if crate::game::spec_record_author(id as int) == crate::game::Faction::Wardens {
                lemma_standing_sound(g1, crate::game::Faction::Wardens, 1);
                lemma_finish_sound(g1.shift_standing(crate::game::Faction::Wardens, 1));
            } else {
                lemma_finish_sound(g1);
            }
        },
        None => {
            if manhattan(g.player, g.relay) <= 1 {
                if count_recovered(g.archives) == 3 && !g.restored {
                    let g1 = GameView { restored: true, ..g.record(Action::Interact) }.log(
                        "relay"@,
                        "Relay restored. Return to the surface lift."@,
                    );
                    lemma_standing_sound(g1, crate::game::Faction::Wardens, 1);
                    let g2 = g1.shift_standing(crate::game::Faction::Wardens, 1);
                    lemma_standing_sound(g2, crate::game::Faction::Custodians, 1);
                    lemma_finish_sound(g2.shift_standing(crate::game::Faction::Custodians, 1));
                }
            }
        },
    }
}

/// A sound state within the clock's range meets what every action needs.
pub proof fn lemma_sound_ready(g: GameView)
    requires
        sound(g),
        g.turn < u32::MAX,
    ensures
        g.ready(),
        interact_ok(g),
{
    lemma_adjacent_archive(g.archives, g.player, g.archives.len() as int);
}

/// A generated expedition is sound.
pub proof fn lemma_new_sound(seed: u64, loadout: Seq<Module>)
    ensures
        sound(spec_new_with(seed, loadout)),
        spec_new_with(seed, loadout).turn == 0,
{
    let g = crate::gen::spec_initial(seed, loadout).log("arrival"@, crate::gen::arrival_text());
    assert forall|i: int| 0 <= i < g.enemies.len() implies 1 <= #[trigger] g.enemies[i].hp <= 8 by {
        assert(g.enemies[i] == sentinel_at(seed, i + 1));
    }
    assert(sound(g));
    lemma_view_sound(g, 7);
}

/// Replaying a log turn by turn stays sound, one turn per action at most.
pub proof fn lemma_replay_sound(seed: u64, loadout: Seq<Module>, acts: Seq<Action>)
    requires
        acts.len() <= u32::MAX,
    ensures
        sound(spec_replay(seed, loadout, acts)),
        spec_replay(seed, loadout, acts).turn <= acts.len(),
    decreases acts.len(),
{
    if acts.len() == 0 {
        lemma_new_sound(seed, loadout);
    } else {
        lemma_replay_sound(seed, loadout, acts.drop_last());
        lemma_apply_sound(spec_replay(seed, loadout, acts.drop_last()), acts.last());
    }
}

impl Game {
    /// Rebuild an expedition from its seed, loadout and action log, through
    /// the same rules a player uses.
    pub fn replay(seed: u64, loadout: &[Module], actions: &[Action]) -> (g: Self)
        requires
            actions@.len() <= u32::MAX,
        ensures
            g@ == spec_replay(seed, loadout@, actions@),
    {
        let mut g = Self::new_with(seed, loadout);
        let mut i: usize = 0;
        proof {
            assert(actions@.take(0) =~= Seq::<Action>::empty());
        }
        while i < actions.len()
            invariant
                i <= actions@.len(),
                actions@.len() <= u32::MAX,
                g@ == spec_replay(seed, loadout@, actions@.take(i as int)),
            decreases actions@.len() - i,
        {
            proof {
                lemma_replay_sound(seed, loadout@, actions@.take(i as int));
                lemma_sound_ready(g@);
                assert(actions@.take(i + 1).drop_last() =~= actions@.take(i as int));
            }
            g.apply(actions[i]);
            i = i + 1;
        }
        proof {
            assert(actions@.take(i as int) =~= actions@);
        }
        g
    }

    /// True when replaying the recorded actions from the seed reproduces this
    /// game state: the map, what was explored, every position, archive and
    /// sentinel, and every counter (all but what is in sight, the history
    /// and the conversation). The log is then a faithful, deterministic trace.
    pub fn replay_matches(&self) -> (b: bool)
        requires
            self@.actions.len() <= u32::MAX,
        ensures
            b == spec_replay_matches(self@),
    {
        if !self.replayable {
            return false;
        }
        let r = Self::replay(self.seed, self.loadout.as_slice(), self.actions.as_slice());
        let same = r.player == self.player && r.lift == self.lift && r.relay == self.relay && r.hp == self.hp
            && r.medkits == self.medkits && r.energy == self.energy && r.turn == self.turn && r.outcome
            == self.outcome && r.restored == self.restored && r.kills == self.kills && r.standing[0]
            == self.standing[0] && r.standing[1] == self.standing[1];
        proof {
            if same {
                assert(r@.standing =~= self@.standing);
            }
        }
        same && same_tiles(&r.tiles, &self.tiles) && same_flags(&r.seen, &self.seen) && same_archives(
            &r.archives,
            &self.archives,
        ) && same_enemies(&r.enemies, &self.enemies)
    }
}

fn same_tiles(a: &Vec<Tile>, b: &Vec<Tile>) -> (r: bool)
    ensures
        r == (a@ == b@),
{
    if a.len() != b.len() {
        return false;
    }
    let mut i: usize = 0;
    while i < a.len()
        invariant
            a@.len() == b@.len(),
            i <= a@.len(),
            forall|j: int| 0 <= j < i ==> a@[j] == b@[j],
        decreases a@.len() - i,
    {
        if a[i] != b[i] {
            return false;
        }
        i = i + 1;
    }
    assert(a@ =~= b@);
    true
}

fn same_flags(a: &Vec<bool>, b: &Vec<bool>) -> (r: bool)
    ensures
        r == (a@ == b@),
{
    if a.len() != b.len() {
        return false;
    }
    let mut i: usize = 0;
    while i < a.len()
        invariant
            a@.len() == b@.len(),
            i <= a@.len(),
            forall|j: int| 0 <= j < i ==> a@[j] == b@[j],
        decreases a@.len() - i,
    {
        if a[i] != b[i] {
            return false;
        }
        i = i + 1;
    }
    assert(a@ =~= b@);
    true
}

fn same_archives(a: &Vec<Archive>, b: &Vec<Archive>) -> (r: bool)
    ensures
        r == (a@ == b@),
{
    if a.len() != b.len() {
        return false;
    }
    let mut i: usize = 0;
    while i < a.len()
        invariant
            a@.len() == b@.len(),
            i <= a@.len(),
            forall|j: int| 0 <= j < i ==> a@[j] == b@[j],
        decreases a@.len() - i,
    {
        let x = a[i];
        let y = b[i];
        if !(x.pos == y.pos && x.id == y.id && x.recovered == y.recovered) {
            return false;
        }
        i = i + 1;
    }
    assert(a@ =~= b@);
    true
}

fn same_enemies(a: &Vec<Enemy>, b: &Vec<Enemy>) -> (r: bool)
    ensures
        r == (a@ == b@),
{
    if a.len() != b.len() {
        return false;
    }
    let mut i: usize = 0;
    while i < a.len()
        invariant
            a@.len() == b@.len(),
            i <= a@.len(),
            forall|j: int| 0 <= j < i ==> a@[j] == b@[j],
        decreases a@.len() - i,
    {
        let x = a[i];
        let y = b[i];
        if !(x.pos == y.pos && x.hp == y.hp) {
            return false;
        }
        i = i + 1;
    }
    assert(a@ =~= b@);
    true
}

} // verus!
