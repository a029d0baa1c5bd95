//! Every rule keeps an expedition consistent: a state that validation
//! accepts is still accepted after any action, so a game played by the
//! rules can always be saved.
use vstd::prelude::*;

use crate::check::{bad_archive, bad_chat, bad_sentinel, duplicate_module, valid, validity_error};
use crate::game::{
    count_recovered, spec_record, spec_record_author, Action, Archive, Enemy, Faction, GameView, Module, Outcome,
    CELLS, MAX_ACTIONS, MAX_CHAT, MAX_EVENTS, SLOTS, Tile, floor_in,
};
use crate::geom::{abs, manhattan, Pos};
use crate::rules::{
    adjacent_archive, enemy_phase, find_enemy, finish_turn, mark_around, nearest, occupied, spec_analyze,
    spec_apply, spec_heal, spec_interact, spec_scan, spec_step,
};
use crate::sight::with_view;

verus! {

/// Every archive names a known record, lies on the floor, and no record
/// is held twice.
pub open spec fn archives_ok(g: GameView) -> bool {
    &&& forall|i: int| 0 <= i < g.archives.len() ==> (#[trigger] g.archives[i]).id < 3 && g.floor(g.archives[i].pos)
    &&& forall|i: int, j: int|
        0 <= i < g.archives.len() && 0 <= j < g.archives.len() && i != j ==> (#[trigger] g.archives[i]).id
            != (#[trigger] g.archives[j]).id
}

/// Every sentinel stands on free floor away from the player, with health
/// 1 to 8, and no two share a tile.
pub open spec fn sentinels_ok(g: GameView) -> bool {
    &&& forall|i: int|
        0 <= i < g.enemies.len() ==> g.floor((#[trigger] g.enemies[i]).pos) && g.enemies[i].pos != g.player && 1
            <= g.enemies[i].hp <= 8
    &&& forall|i: int, j: int|
        0 <= i < g.enemies.len() && 0 <= j < g.enemies.len() && i != j ==> (#[trigger] g.enemies[i]).pos
            != (#[trigger] g.enemies[j]).pos
}

/// Validation's conditions, stated one by one.
pub open spec fn consistent(g: GameView) -> bool {
    &&& g.tiles.len() == CELLS && g.seen.len() == CELLS && g.visible.len() == CELLS
    &&& g.floor(g.player) && g.floor(g.lift) && g.floor(g.relay)
    &&& 0 <= g.hp <= 24 && g.medkits <= 3 && g.energy <= 6 && g.enemies.len() <= 5 && g.archives.len() == 3
    &&& archives_ok(g)
    &&& sentinels_ok(g)
    &&& g.events.len() <= MAX_EVENTS && g.chat.len() <= MAX_CHAT
    &&& forall|i: int| 0 <= i < g.chat.len() ==> !bad_chat(g, i)
    &&& g.loadout.len() <= SLOTS && !duplicate_module(g) && g.actions.len() <= MAX_ACTIONS
    &&& forall|i: int| 0 <= i < 2 ==> -20 <= #[trigger] g.standing[i] <= 20
    &&& g.restored ==> count_recovered(g.archives) == 3
    &&& (g.outcome == Outcome::Dead) == (g.hp == 0)
    &&& g.outcome == Outcome::Escaped ==> g.restored
}

/// Validation accepts exactly the consistent states.
pub proof fn lemma_valid_is_consistent(g: GameView)
    ensures
        valid(g) <==> consistent(g),
{
    if valid(g) {
        assert forall|i: int, j: int|
            0 <= i < g.archives.len() && 0 <= j < g.archives.len() && i != j implies (#[trigger] g.archives[i]).id
            != (#[trigger] g.archives[j]).id by {
            if i < j {
                assert(!bad_archive(g, j));
            } else {
                assert(!bad_archive(g, i));
            }
        }
        assert forall|i: int| 0 <= i < g.archives.len() implies (#[trigger] g.archives[i]).id < 3 && g.floor(
            g.archives[i].pos,
        ) by {
            assert(!bad_archive(g, i));
        }
        assert forall|i: int, j: int|
            0 <= i < g.enemies.len() && 0 <= j < g.enemies.len() && i != j implies (#[trigger] g.enemies[i]).pos
            != (#[trigger] g.enemies[j]).pos by {
            if i < j {
                assert(!bad_sentinel(g, j));
            } else {
                assert(!bad_sentinel(g, i));
            }
        }
        assert forall|i: int| 0 <= i < g.enemies.len() implies g.floor((#[trigger] g.enemies[i]).pos)
            && g.enemies[i].pos != g.player && 1 <= g.enemies[i].hp <= 8 by {
            assert(!bad_sentinel(g, i));
        }
    }
    if consistent(g) {
        assert forall|i: int| 0 <= i < g.archives.len() implies !bad_archive(g, i) by {
            assert(g.archives[i].id < 3);
            if exists|j: int| 0 <= j < i && g.archives[j].id == g.archives[i].id {
                let j = choose|j: int| 0 <= j < i && g.archives[j].id == g.archives[i].id;
                assert(g.archives[j].id != g.archives[i].id);
            }
        }
        assert forall|i: int| 0 <= i < g.enemies.len() implies !bad_sentinel(g, i) by {
            assert(g.floor(g.enemies[i].pos));
            if exists|j: int| 0 <= j < i && g.enemies[j].pos == g.enemies[i].pos {
                let j = choose|j: int| 0 <= j < i && g.enemies[j].pos == g.enemies[i].pos;
                assert(g.enemies[j].pos != g.enemies[i].pos);
            }
        }
    }
}


/// A consistent state with both standings present.
pub open spec fn sound_state(g: GameView) -> bool {
    consistent(g) && g.standing.len() == 2
}

pub proof fn lemma_log_ok(g: GameView, kind: Seq<char>, text: Seq<char>)
    requires
        sound_state(g),
    ensures
        sound_state(g.log(kind, text)),
{
    let r = g.log(kind, text);
    assert forall|i: int| 0 <= i < r.chat.len() implies !bad_chat(r, i) by {
        assert(!bad_chat(g, i));
    }
}

proof fn lemma_record_ok(g: GameView, a: Action)
    requires
        sound_state(g),
    ensures
        sound_state(g.record(a)),
{
    let r = g.record(a);
    assert forall|i: int| 0 <= i < r.chat.len() implies !bad_chat(r, i) by {
        assert(!bad_chat(g, i));
    }
}

proof fn lemma_standing_ok(g: GameView, f: Faction, by: int)
    requires
        sound_state(g),
    ensures
        sound_state(g.shift_standing(f, by)),
        g.shift_standing(f, by).outcome == g.outcome,
{
    let v = crate::rules::clamp(g.standing[f.slot()] + by, -20, 20);
    let r = GameView { standing: g.standing.update(f.slot(), v as i32), ..g };
    assert forall|i: int| 0 <= i < r.chat.len() implies !bad_chat(r, i) by {
        assert(!bad_chat(g, i));
    }
    assert forall|i: int| 0 <= i < 2 implies -20 <= #[trigger] r.standing[i] <= 20 by {
        if i != f.slot() {
            assert(r.standing[i] == g.standing[i]);
        }
    }
    lemma_log_ok(
        r,
        "standing"@,
        f.spec_name() + " standing "@ + crate::text::signed(by) + " (now "@ + crate::text::decimal(v) + ")."@,
    );
}

/// A view that differs from `g` only in what the player sees.
pub proof fn lemma_view_ok(g: GameView, radius: int)
    requires
        sound_state(g),
    ensures
        sound_state(with_view(g, radius)),
        with_view(g, radius).outcome == g.outcome,
{
    let r = with_view(g, radius);
    assert forall|i: int| 0 <= i < r.chat.len() implies !bad_chat(r, i) by {
        assert(!bad_chat(g, i));
    }
}

/// A chasing sentinel's step lands on free floor.
proof fn lemma_chase_ok(g: GameView, i: int, q: Pos)
    requires
        sound_state(g),
        0 <= i < g.enemies.len(),
        g.chase(g.enemies[i].pos) == Some(q),
    ensures
        sound_state(GameView { enemies: g.enemies.update(i, Enemy { pos: q, ..g.enemies[i] }), ..g }),
{
    let p = g.enemies[i].pos;
    let r = GameView { enemies: g.enemies.update(i, Enemy { pos: q, ..g.enemies[i] }), ..g };
    assert(g.chase_ok(p, q.x as int, q.y as int));
    assert(g.floor(q));
    assert forall|k: int| 0 <= k < g.enemies.len() && k != i implies g.enemies[k].pos != q by {
        if g.enemies[k].pos == q {
            assert(occupied(g.enemies, q.x as int, q.y as int));
        }
    }
    assert forall|a: int, b: int|
        0 <= a < r.enemies.len() && 0 <= b < r.enemies.len() && a != b implies (#[trigger] r.enemies[a]).pos
        != (#[trigger] r.enemies[b]).pos by {
        if a != i && b != i {
            assert(g.enemies[a].pos != g.enemies[b].pos);
        }
    }
    assert forall|a: int| 0 <= a < r.enemies.len() implies r.floor((#[trigger] r.enemies[a]).pos)
        && r.enemies[a].pos != r.player && 1 <= r.enemies[a].hp <= 8 by {
        assert(g.floor(g.enemies[a].pos));
    }
    assert forall|k: int| 0 <= k < r.chat.len() implies !bad_chat(r, k) by {
        assert(!bad_chat(g, k));
    }
}

/// The sentinels' turn keeps a game under way consistent.
proof fn lemma_phase_ok(g: GameView, i: int)
    requires
        sound_state(g),
        g.outcome == Outcome::Exploring,
    ensures
        sound_state(enemy_phase(g, i)),
    decreases g.enemies.len() - i,
{
    if i < 0 || i >= g.enemies.len() {
    } else {
        let p = g.enemies[i].pos;
        let d = manhattan(p, g.player);
        if d == 1 {
            if g.has(Module::Shield) && g.energy > 0 {
                let g1 = GameView { energy: (g.energy - 1) as u32, ..g };
                assert forall|k: int| 0 <= k < g1.chat.len() implies !bad_chat(g1, k) by {
                    assert(!bad_chat(g, k));
                }
                lemma_log_ok(g1, "shield"@, "Shield Cell absorbed a sentinel strike (-1 power)."@);
                lemma_phase_ok(g1.log("shield"@, "Shield Cell absorbed a sentinel strike (-1 power)."@), i + 1);
            } else {
                let g0 = GameView { hp: (g.hp - 1) as i32, ..g };
                let g1 = g0.log("damage"@, "A sentinel strikes you for 1 damage."@);
                assert(g.hp >= 1);
                if g1.hp <= 0 {
                    let g2 = GameView { hp: 0, outcome: Outcome::Dead, ..g1 };
                    assert forall|k: int| 0 <= k < g2.chat.len() implies !bad_chat(g2, k) by {
                        assert(!bad_chat(g, k));
                    }
                    lemma_log_ok(g2, "death"@, "Expedition lost. Start a new signal or reload your save."@);
                } else {
                    assert forall|k: int| 0 <= k < g0.chat.len() implies !bad_chat(g0, k) by {
                        assert(!bad_chat(g, k));
                    }
                    lemma_log_ok(g0, "damage"@, "A sentinel strikes you for 1 damage."@);
                    lemma_phase_ok(g1, i + 1);
                }
            }
        } else if d <= 7 && crate::sight::clear_line(g.tiles, p, g.player) {
            match g.chase(p) {
                Some(q) => {
                    lemma_chase_ok(g, i, q);
                    lemma_phase_ok(
                        GameView { enemies: g.enemies.update(i, Enemy { pos: q, ..g.enemies[i] }), ..g },
                        i + 1,
                    );
                },
                None => lemma_phase_ok(g, i + 1),
            }
        } else {
            lemma_phase_ok(g, i + 1);
        }
    }
}

proof fn lemma_finish_ok(g: GameView)
    requires
        sound_state(g),
        g.outcome == Outcome::Exploring,
    ensures
        sound_state(finish_turn(g)),
{
    let g1 = GameView { turn: (g.turn + 1) as u32, ..g };
    assert forall|k: int| 0 <= k < g1.chat.len() implies !bad_chat(g1, k) by {
        assert(!bad_chat(g, k));
    }
    lemma_phase_ok(g1, 0);
    lemma_view_ok(enemy_phase(g1, 0), 7);
}


proof fn lemma_no_enemy(e: Seq<Enemy>, p: Pos, i: int)
    requires
        0 <= i,
        find_enemy(e, p, i) is None,
    ensures
        forall|k: int| i <= k < e.len() ==> e[k].pos != p,
    decreases e.len() - i,
{
    if i < e.len() {
        lemma_no_enemy(e, p, i + 1);
    }
}

proof fn lemma_adjacent_unrecovered(a: Seq<Archive>, p: Pos, n: int)
    requires
        n <= a.len(),
    ensures
        adjacent_archive(a, p, n) matches Some(i) ==> 0 <= i < n && !a[i].recovered,
    decreases n,
{
    if n > 0 {
        lemma_adjacent_unrecovered(a, p, n - 1);
    }
}

proof fn lemma_nearest_index(a: Seq<Archive>, p: Pos, n: int)
    requires
        n <= a.len(),
    ensures
        nearest(a, p, n) matches Some(i) ==> 0 <= i < n,
    decreases n,
{
    if n > 0 {
        lemma_nearest_index(a, p, n - 1);
    }
}

/// All archives recovered is the only way to count as many as there are.
proof fn lemma_count_all(a: Seq<Archive>)
    ensures
        count_recovered(a) <= a.len(),
        count_recovered(a) == a.len() ==> forall|k: int| 0 <= k < a.len() ==> (#[trigger] a[k]).recovered,
    decreases a.len(),
{
    if a.len() > 0 {
        lemma_count_all(a.drop_last());
        if count_recovered(a) == a.len() {
            assert forall|k: int| 0 <= k < a.len() implies (#[trigger] a[k]).recovered by {
                if k < a.len() - 1 {
                    assert(a.drop_last()[k] == a[k]);
                }
            }
        }
    }
}

proof fn lemma_step_ok(g: GameView, dx: i32, dy: i32)
    requires
        sound_state(g),
    ensures
        sound_state(spec_step(g, dx, dy)),
{
    let nx = g.player.x + dx;
    let ny = g.player.y + dy;
    if g.outcome != Outcome::Exploring || abs(dx as int) + abs(dy as int) != 1 || !g.floor_at(nx, ny) {
    } else {
        let next = Pos { x: nx as i32, y: ny as i32 };
        let g1 = g.record(Action::Move(dx, dy));
        lemma_record_ok(g, Action::Move(dx, dy));
        match find_enemy(g1.enemies, next, 0) {
            Some(i) => {
                crate::rules::lemma_find_enemy(g1.enemies, next, 0);
                let h = g1.enemies[i].hp - 3;
                let ga0 = GameView { enemies: g1.enemies.update(i, Enemy { hp: h as i32, ..g1.enemies[i] }), ..g1 };
                let ga = ga0.log("combat"@, "You hit a sentinel for 3 damage."@);
                if h <= 0 {
                    let gb0 = GameView { enemies: ga.enemies.remove(i), kills: (ga.kills + 1) as u32, ..ga };
                    let rest = g1.enemies.remove(i);
                    assert(gb0.enemies =~= rest);
                    assert forall|k: int| 0 <= k < rest.len() implies #[trigger] rest[k] == g1.enemies[
                        if k < i { k } else { k + 1 }] by {}
                    assert forall|a: int, b: int|
                        0 <= a < gb0.enemies.len() && 0 <= b < gb0.enemies.len() && a != b implies (
                        #[trigger] gb0.enemies[a]).pos != (#[trigger] gb0.enemies[b]).pos by {
                        let a1 = if a < i { a } else { a + 1 };
                        let b1 = if b < i { b } else { b + 1 };
                        assert(rest[a] == g1.enemies[a1]);
                        assert(rest[b] == g1.enemies[b1]);
                        assert(g1.enemies[a1].pos != g1.enemies[b1].pos);
                    }
                    assert forall|a: int| 0 <= a < gb0.enemies.len() implies gb0.floor((#[trigger] gb0.enemies[a]).pos)
                        && gb0.enemies[a].pos != gb0.player && 1 <= gb0.enemies[a].hp <= 8 by {
                        let a1 = if a < i { a } else { a + 1 };
                        assert(rest[a] == g1.enemies[a1]);
                        assert(g1.floor(g1.enemies[a1].pos));
                    }
                    assert forall|k: int| 0 <= k < gb0.chat.len() implies !bad_chat(gb0, k) by {
                        assert(!bad_chat(g, k));
                    }
                    assert(sound_state(gb0));
                    lemma_log_ok(gb0, "combat"@, "Sentinel disabled."@);
                    let gb1 = gb0.log("combat"@, "Sentinel disabled."@);
                    lemma_standing_ok(gb1, Faction::Custodians, -1);
                    lemma_finish_ok(gb1.shift_standing(Faction::Custodians, -1));
                } else {
                    assert forall|a: int, b: int|
                        0 <= a < ga0.enemies.len() && 0 <= b < ga0.enemies.len() && a != b implies (
                        #[trigger] ga0.enemies[a]).pos != (#[trigger] ga0.enemies[b]).pos by {
                        assert(g1.enemies[a].pos != g1.enemies[b].pos);
                    }
                    assert forall|a: int| 0 <= a < ga0.enemies.len() implies ga0.floor((#[trigger] ga0.enemies[a]).pos)
                        && ga0.enemies[a].pos != ga0.player && 1 <= ga0.enemies[a].hp <= 8 by {
                        assert(g1.floor(g1.enemies[a].pos));
                    }
                    assert forall|k: int| 0 <= k < ga0.chat.len() implies !bad_chat(ga0, k) by {
                        assert(!bad_chat(g, k));
                    }
                    lemma_log_ok(ga0, "combat"@, "You hit a sentinel for 3 damage."@);
                    lemma_finish_ok(ga);
                }
            },
            None => {
                lemma_no_enemy(g1.enemies, next, 0);
                let g2 = GameView { player: next, ..g1 };
                assert(g2.floor(next));
                assert forall|a: int| 0 <= a < g2.enemies.len() implies g2.floor((#[trigger] g2.enemies[a]).pos)
                    && g2.enemies[a].pos != g2.player && 1 <= g2.enemies[a].hp <= 8 by {
                    assert(g1.floor(g1.enemies[a].pos));
                }
                assert forall|k: int| 0 <= k < g2.chat.len() implies !bad_chat(g2, k) by {
                    assert(!bad_chat(g, k));
                }
                lemma_finish_ok(g2);
            },
        }
    }
}

proof fn lemma_heal_ok(g: GameView)
    requires
        sound_state(g),
    ensures
        sound_state(spec_heal(g)),
{
    if g.outcome != Outcome::Exploring {
    } else if g.medkits == 0 {
        lemma_log_ok(g, "status"@, "No medkits remain."@);
    } else if g.hp == 24 {
        lemma_log_ok(g, "status"@, "Health is already full."@);
    } else {
        let g1 = g.record(Action::Heal);
        lemma_record_ok(g, Action::Heal);
        let g2 = GameView {
            medkits: (g1.medkits - 1) as u32,
            hp: if g1.hp + 10 < 24 { (g1.hp + 10) as i32 } else { 24 },
            ..g1
        };
        assert forall|k: int| 0 <= k < g2.chat.len() implies !bad_chat(g2, k) by {
            assert(!bad_chat(g, k));
        }
        assert forall|a: int| 0 <= a < g2.enemies.len() implies g2.floor((#[trigger] g2.enemies[a]).pos)
            && g2.enemies[a].pos != g2.player && 1 <= g2.enemies[a].hp <= 8 by {
            assert(g1.floor(g1.enemies[a].pos));
        }
        lemma_log_ok(g2, "healing"@, "Used a medkit: restored up to 10 health."@);
        lemma_finish_ok(g2.log("healing"@, "Used a medkit: restored up to 10 health."@));
    }
}

proof fn lemma_scan_ok(g: GameView)
    requires
        sound_state(g),
    ensures
        sound_state(spec_scan(g)),
{
    if g.outcome != Outcome::Exploring {
    } else if !g.has(Module::Scanner) {
        lemma_log_ok(g, "status"@, "No Scanner Array fitted. Change your loadout before an expedition."@);
    } else if g.energy < 1 {
        lemma_log_ok(g, "status"@, "Not enough power for a scanner pulse."@);
    } else {
        let g1 = g.record(Action::Scan);
        lemma_record_ok(g, Action::Scan);
        let g2 = GameView { energy: (g1.energy - 1) as u32, ..g1 };
        assert forall|k: int| 0 <= k < g2.chat.len() implies !bad_chat(g2, k) by {
            assert(!bad_chat(g, k));
        }
        let m = "Scanner pulse extends sight until your next action. Walls still block it."@;
        lemma_log_ok(g2, "scan"@, m);
        lemma_finish_ok(g2.log("scan"@, m));
        lemma_view_ok(finish_turn(g2.log("scan"@, m)), 11);
    }
}

proof fn lemma_analyze_ok(g: GameView)
    requires
        sound_state(g),
    ensures
        sound_state(spec_analyze(g)),
{
    if g.outcome != Outcome::Exploring {
    } else if !g.has(Module::Analyzer) {
        lemma_log_ok(g, "status"@, "No Field Analyzer fitted. Change your loadout before an expedition."@);
    } else if g.energy < 2 {
        lemma_log_ok(g, "status"@, "Not enough power for the analyzer (needs 2)."@);
    } else {
        match nearest(g.archives, g.player, g.archives.len() as int) {
            None => lemma_log_ok(g, "status"@, "No unrecovered archives remain to analyze."@),
            Some(k) => {
                lemma_nearest_index(g.archives, g.player, g.archives.len() as int);
                let t = g.archives[k].pos;
                let g1 = g.record(Action::Analyze);
                lemma_record_ok(g, Action::Analyze);
                let g2 = GameView { energy: (g1.energy - 2) as u32, seen: mark_around(g1.seen, t), ..g1 };
                assert forall|c: int| 0 <= c < g2.chat.len() implies !bad_chat(g2, c) by {
                    assert(!bad_chat(g, c));
                }
                let m = "Analyzer pinged an archive "@ + crate::text::decimal(manhattan(g.player, t))
                    + " tiles away, to the "@ + crate::rules::direction(t.x - g.player.x, t.y - g.player.y)
                    + ". It is now on your map."@;
                lemma_log_ok(g2, "analysis"@, m);
                lemma_finish_ok(g2.log("analysis"@, m));
            },
        }
    }
}

proof fn lemma_interact_ok(g: GameView)
    requires
        sound_state(g),
    ensures
        sound_state(spec_interact(g)),
{
    if g.outcome != Outcome::Exploring {
    } else {
        lemma_adjacent_unrecovered(g.archives, g.player, g.archives.len() as int);
        lemma_count_all(g.archives);
        match adjacent_archive(g.archives, g.player, g.archives.len() as int) {
            Some(i) => {
                let id = g.archives[i].id;
                let g0 = g.record(Action::Interact);
                lemma_record_ok(g, Action::Interact);
                let ga = GameView { archives: g.archives.update(i, Archive { recovered: true, ..g.archives[i] }), ..g0 };
                assert(!g.restored);
                assert forall|a: int| 0 <= a < ga.archives.len() implies (#[trigger] ga.archives[a]).id < 3
                    && ga.floor(ga.archives[a].pos) by {
                    assert(g.archives[a].id < 3 && g.floor(g.archives[a].pos));
                }
                assert forall|a: int, b: int|
                    0 <= a < ga.archives.len() && 0 <= b < ga.archives.len() && a != b implies (
                    #[trigger] ga.archives[a]).id != (#[trigger] ga.archives[b]).id by {
                    assert(g.archives[a].id != g.archives[b].id);
                }
                assert forall|c: int| 0 <= c < ga.chat.len() implies !bad_chat(ga, c) by {
                    assert(!bad_chat(g, c));
                }
                lemma_log_ok(ga, "archive"@, spec_record(id as int));
                let g1 = ga.log("archive"@, spec_record(id as int));
                if spec_record_author(id as int) == Faction::Wardens {
                    lemma_standing_ok(g1, Faction::Wardens, 1);
                    lemma_finish_ok(g1.shift_standing(Faction::Wardens, 1));
                } else {
                    lemma_finish_ok(g1);
                }
            },
            None => {
                if manhattan(g.player, g.relay) <= 1 {
                    if count_recovered(g.archives) == 3 && !g.restored {
                        let g0 = g.record(Action::Interact);
                        lemma_record_ok(g, Action::Interact);
                        let ga = GameView { restored: true, ..g0 };
                        assert forall|c: int| 0 <= c < ga.chat.len() implies !bad_chat(ga, c) by {
                            assert(!bad_chat(g, c));
                        }
                        let m = "Relay restored. Return to the surface lift."@;
                        lemma_log_ok(ga, "relay"@, m);
                        lemma_standing_ok(ga.log("relay"@, m), Faction::Wardens, 1);
                        lemma_standing_ok(ga.log("relay"@, m).shift_standing(Faction::Wardens, 1), Faction::Custodians, 1);
                        lemma_finish_ok(
                            ga.log("relay"@, m).shift_standing(Faction::Wardens, 1).shift_standing(Faction::Custodians, 1),
                        );
                    } else if !g.restored {
                        lemma_log_ok(g, "status"@, "Relay needs three recovered archive keys."@);
                    } else {
                        lemma_log_ok(g, "status"@, "Relay is online. Return to the surface lift."@);
                    }
                } else if manhattan(g.player, g.lift) <= 1 {
                    if g.restored {
                        let g0 = g.record(Action::Interact);
                        lemma_record_ok(g, Action::Interact);
                        let ga = GameView { outcome: Outcome::Escaped, ..g0 };
                        assert forall|c: int| 0 <= c < ga.chat.len() implies !bad_chat(ga, c) by {
                            assert(!bad_chat(g, c));
                        }
                        lemma_log_ok(ga, "escape"@, "Signal transmitted. You escaped with the recovered evidence."@);
                    } else {
                        lemma_log_ok(g, "status"@, "Restore the relay before departure."@);
                    }
                } else {
                    lemma_log_ok(g, "status"@, "Nothing to interact with here. Stand beside an archive, relay, or lift."@);
                }
            },
        }
    }
}

/// Validation accepts whatever the rules make of a state it accepts: no
/// action, refused or taken, can leave the expedition inconsistent.
pub proof fn law_rules_keep_the_expedition_valid(g: GameView, a: Action)
    requires
        valid(g),
        g.standing.len() == 2,
    ensures
        valid(spec_apply(g, a)),
        spec_apply(g, a).standing.len() == 2,
{
    reveal(spec_apply);
    lemma_valid_is_consistent(g);
    match a {
        Action::Move(dx, dy) => lemma_step_ok(g, dx, dy),
        Action::Wait => {
            if g.outcome == Outcome::Exploring {
                lemma_record_ok(g, Action::Wait);
                lemma_finish_ok(g.record(Action::Wait));
            }
        },
        Action::Heal => lemma_heal_ok(g),
        Action::Scan => lemma_scan_ok(g),
        Action::Analyze => lemma_analyze_ok(g),
        Action::Interact => lemma_interact_ok(g),
    }
    lemma_valid_is_consistent(spec_apply(g, a));
}


/// Sentinel `b` is sentinel `a` after its turn: health unchanged, and either
/// in place or one step away onto floor of `tiles`, nearer to `player`.
pub open spec fn closed_in(a: Enemy, b: Enemy, player: Pos, tiles: Seq<Tile>) -> bool {
    &&& b.hp == a.hp
    &&& (b.pos == a.pos || (manhattan(a.pos, b.pos) == 1 && floor_in(tiles, b.pos.x as int, b.pos.y as int)
        && manhattan(b.pos, player) < manhattan(a.pos, player)))
}

/// A chasing sentinel's step is one step onto floor, nearer the player.
proof fn lemma_chase_step(g: GameView, p: Pos, q: Pos)
    requires
        g.chase(p) == Some(q),
    ensures
        manhattan(p, q) == 1,
        floor_in(g.tiles, q.x as int, q.y as int),
        manhattan(q, g.player) < manhattan(p, g.player),
{
    if g.chase_ok(p, p.x + 1, p.y as int) {
    } else if g.chase_ok(p, p.x - 1, p.y as int) {
    } else if g.chase_ok(p, p.x as int, p.y + 1) {
    } else {
    }
}

proof fn lemma_phase_moves(g0: GameView, g: GameView, i: int)
    requires
        0 <= i,
        g.enemies.len() == g0.enemies.len(),
        g.player == g0.player,
        g.tiles == g0.tiles,
        forall|k: int| 0 <= k < g.enemies.len() ==> closed_in(g0.enemies[k], #[trigger] g.enemies[k], g0.player, g0.tiles),
        forall|k: int| i <= k < g.enemies.len() ==> #[trigger] g.enemies[k] == g0.enemies[k],
    ensures
        enemy_phase(g, i).enemies.len() == g0.enemies.len(),
        forall|k: int|
            0 <= k < g0.enemies.len() ==> closed_in(g0.enemies[k], #[trigger] enemy_phase(g, i).enemies[k], g0.player, g0.tiles),
    decreases g.enemies.len() - i,
{
    if i >= g.enemies.len() {
    } else {
        let p = g.enemies[i].pos;
        let d = manhattan(p, g.player);
        if d == 1 {
            if g.has(Module::Shield) && g.energy > 0 {
                lemma_phase_moves(
                    g0,
                    GameView { energy: (g.energy - 1) as u32, ..g }.log(
                        "shield"@,
                        "Shield Cell absorbed a sentinel strike (-1 power)."@,
                    ),
                    i + 1,
                );
            } else {
                let g1 = GameView { hp: (g.hp - 1) as i32, ..g }.log(
                    "damage"@,
                    "A sentinel strikes you for 1 damage."@,
                );
                if g1.hp > 0 {
                    lemma_phase_moves(g0, g1, i + 1);
                }
            }
        } else if d <= 7 && crate::sight::clear_line(g.tiles, p, g.player) {
            match g.chase(p) {
                Some(q) => {
                    lemma_chase_step(g, p, q);
                    let g1 = GameView { enemies: g.enemies.update(i, Enemy { pos: q, ..g.enemies[i] }), ..g };
                    assert(closed_in(g0.enemies[i], g1.enemies[i], g0.player, g0.tiles));
                    lemma_phase_moves(g0, g1, i + 1);
                },
                None => lemma_phase_moves(g0, g, i + 1),
            }
        } else {
            lemma_phase_moves(g0, g, i + 1);
        }
    }
}

/// The end of a turn in a consistent expedition under way: the clock
/// advances by one, the player stays put, and each sentinel keeps its health
/// and either stays or takes one step onto floor, nearer the player; the
/// sentinels stay on floor, apart and off the player.
pub proof fn law_sentinels_close_in_one_step(g: GameView)
    requires
        valid(g),
        g.standing.len() == 2,
        g.outcome == Outcome::Exploring,
        g.turn < u32::MAX,
    ensures
        finish_turn(g).turn == g.turn + 1,
        finish_turn(g).player == g.player,
        finish_turn(g).enemies.len() == g.enemies.len(),
        forall|k: int|
            0 <= k < g.enemies.len() ==> closed_in(g.enemies[k], #[trigger] finish_turn(g).enemies[k], g.player, g.tiles),
        sentinels_ok(finish_turn(g)),
{
    lemma_valid_is_consistent(g);
    lemma_finish_ok(g);
    let t1 = GameView { turn: (g.turn + 1) as u32, ..g };
    crate::rules::lemma_enemy_phase_frame(t1, 0);
    lemma_phase_moves(t1, t1, 0);
}

} // verus!
