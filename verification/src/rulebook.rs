//! The rules as a player reads them: what a medkit restores, what a bump
//! deals, how far a scanner pulse sees, what restoring the relay does to the
//! factions, and how a run is ranked. Each is stated in terms of the state
//! before and after, not by the definitions of the actions.
use vstd::prelude::*;

use crate::advice::{spec_rank, spec_summary_lines};
use crate::game::{count_recovered, pos_of, Archive, Enemy, GameView, Module, Outcome, CELLS};
use crate::geom::{abs, manhattan, Pos};
use crate::rules::{
    adjacent_archive, enemy_phase, find_enemy, finish_turn, lemma_enemy_phase_frame, spec_heal, spec_interact,
    spec_scan, spec_step,
};
use crate::sight::in_view;

verus! {

/// The sentinels' turn never changes a sentinel's health or their number.
proof fn lemma_phase_keeps_sentinel_health(g: GameView, i: int)
    ensures
        enemy_phase(g, i).enemies.len() == g.enemies.len(),
        forall|k: int| 0 <= k < g.enemies.len() ==> #[trigger] enemy_phase(g, i).enemies[k].hp == g.enemies[k].hp,
    decreases g.enemies.len() - i,
{
    if i < 0 || i >= g.enemies.len() {
    } else {
        let p = g.enemies[i].pos;
        let d = manhattan(p, g.player);
        if d == 1 {
            if g.has(Module::Shield) && g.energy > 0 {
                lemma_phase_keeps_sentinel_health(
                    GameView { energy: (g.energy - 1) as u32, ..g }.log(
                        "shield"@,
                        "Shield Cell absorbed a sentinel strike (-1 power)."@,
                    ),
                    i + 1,
                );
            } else {
                let g1 = GameView { hp: (g.hp - 1) as i32, ..g }.log(
                    "damage"@,
                    "A sentinel strikes you for 1 damage."@,
                );
                if g1.hp > 0 {
                    lemma_phase_keeps_sentinel_health(g1, i + 1);
                }
            }
        } else if d <= 7 && crate::sight::clear_line(g.tiles, p, g.player) {
            match g.chase(p) {
                Some(q) => lemma_phase_keeps_sentinel_health(
                    GameView { enemies: g.enemies.update(i, Enemy { pos: q, ..g.enemies[i] }), ..g },
                    i + 1,
                ),
                None => lemma_phase_keeps_sentinel_health(g, i + 1),
            }
        } else {
            lemma_phase_keeps_sentinel_health(g, i + 1);
        }
    }
}

/// With no sentinel beside the player, the sentinels' turn leaves the
/// player's health and the outcome alone.
proof fn lemma_phase_no_strike(g: GameView, i: int)
    requires
        0 <= i,
        forall|k: int| i <= k < g.enemies.len() ==> manhattan(#[trigger] g.enemies[k].pos, g.player) != 1,
    ensures
        enemy_phase(g, i).hp == g.hp,
        enemy_phase(g, i).outcome == g.outcome,
    decreases g.enemies.len() - i,
{
    if i < g.enemies.len() {
        let p = g.enemies[i].pos;
        if manhattan(p, g.player) <= 7 && crate::sight::clear_line(g.tiles, p, g.player) {
            match g.chase(p) {
                Some(q) => {
                    let g1 = GameView { enemies: g.enemies.update(i, Enemy { pos: q, ..g.enemies[i] }), ..g };
                    assert forall|k: int| i + 1 <= k < g1.enemies.len() implies manhattan(
                        #[trigger] g1.enemies[k].pos,
                        g1.player,
                    ) != 1 by {
                        assert(g1.enemies[k] == g.enemies[k]);
                    }
                    lemma_phase_no_strike(g1, i + 1);
                },
                None => lemma_phase_no_strike(g, i + 1),
            }
        } else {
            lemma_phase_no_strike(g, i + 1);
        }
    }
}

/// The end of a turn keeps the map, the player's tile, the standings and
/// every sentinel's health, and with no sentinel beside the player it keeps
/// the player's health too.
proof fn lemma_turn_end(g: GameView)
    ensures
        finish_turn(g).tiles == g.tiles,
        finish_turn(g).player == g.player,
        finish_turn(g).standing == g.standing,
        finish_turn(g).restored == g.restored,
        finish_turn(g).medkits == g.medkits,
        finish_turn(g).kills == g.kills,
        finish_turn(g).visible.len() == g.visible.len(),
        finish_turn(g).enemies.len() == g.enemies.len(),
        forall|k: int| 0 <= k < g.enemies.len() ==> #[trigger] finish_turn(g).enemies[k].hp == g.enemies[k].hp,
        (forall|k: int| 0 <= k < g.enemies.len() ==> manhattan(#[trigger] g.enemies[k].pos, g.player) != 1) ==> (
        finish_turn(g).hp == g.hp),
{
    let t = GameView { turn: (g.turn + 1) as u32, ..g };
    lemma_enemy_phase_frame(t, 0);
    lemma_phase_keeps_sentinel_health(t, 0);
    if forall|k: int| 0 <= k < g.enemies.len() ==> manhattan(#[trigger] g.enemies[k].pos, g.player) != 1 {
        lemma_phase_no_strike(t, 0);
    }
}

/// A medkit restores up to ten health, never beyond 24, and is used up. With
/// no sentinel beside the player to strike back, that is the health after
/// the turn.
pub proof fn law_medkit_restores_up_to_ten(g: GameView)
    requires
        g.outcome == Outcome::Exploring,
        g.medkits > 0,
        0 <= g.hp < 24,
    ensures
        spec_heal(g).medkits == g.medkits - 1,
        (forall|k: int| 0 <= k < g.enemies.len() ==> manhattan(#[trigger] g.enemies[k].pos, g.player) != 1) ==> (
        spec_heal(g).hp == (if g.hp > 14 { 24 } else { g.hp + 10 })),
{
    let g1 = g.record(crate::game::Action::Heal);
    let healed = if g.hp > 14 { 24int } else { g.hp + 10 };
    let g2 = GameView { medkits: (g1.medkits - 1) as u32, hp: healed as i32, ..g1 }.log(
        "healing"@,
        "Used a medkit: restored up to 10 health."@,
    );
    assert(spec_heal(g) == finish_turn(g2));
    lemma_turn_end(g2);
}

/// The first sentinel on a tile.
proof fn lemma_first_sentinel(e: Seq<Enemy>, p: Pos, i: int, j: int)
    requires
        0 <= j <= i < e.len(),
        e[i].pos == p,
        forall|k: int| 0 <= k < i ==> e[k].pos != p,
    ensures
        find_enemy(e, p, j) == Some(i),
    decreases i - j,
{
    if j < i {
        lemma_first_sentinel(e, p, i, j + 1);
    }
}

/// Bumping into a sentinel costs it exactly 3 health and leaves the player
/// where they stood; a sentinel left with none is removed and counted as
/// disabled. Every other sentinel keeps its health.
pub proof fn law_bump_deals_three(g: GameView, dx: i32, dy: i32, i: int)
    requires
        g.outcome == Outcome::Exploring,
        abs(dx as int) + abs(dy as int) == 1,
        g.floor_at(g.player.x + dx, g.player.y + dy),
        0 <= i < g.enemies.len(),
        g.enemies[i].pos.x == g.player.x + dx,
        g.enemies[i].pos.y == g.player.y + dy,
        forall|k: int| 0 <= k < i ==> g.enemies[k].pos != g.enemies[i].pos,
        g.enemies[i].hp >= i32::MIN + 3,
        g.kills < u32::MAX,
    ensures
        spec_step(g, dx, dy).player == g.player,
        g.enemies[i].hp > 3 ==> spec_step(g, dx, dy).enemies.len() == g.enemies.len() && spec_step(
            g,
            dx,
            dy,
        ).enemies[i].hp == g.enemies[i].hp - 3 && spec_step(g, dx, dy).kills == g.kills,
        g.enemies[i].hp <= 3 ==> spec_step(g, dx, dy).enemies.len() == g.enemies.len() - 1 && spec_step(
            g,
            dx,
            dy,
        ).kills == g.kills + 1,
        forall|k: int| 0 <= k < i ==> #[trigger] spec_step(g, dx, dy).enemies[k].hp == g.enemies[k].hp,
        g.enemies[i].hp > 3 ==> forall|k: int|
            i < k < g.enemies.len() ==> #[trigger] spec_step(g, dx, dy).enemies[k].hp == g.enemies[k].hp,
        g.enemies[i].hp <= 3 ==> forall|k: int|
            i < k < g.enemies.len() ==> #[trigger] spec_step(g, dx, dy).enemies[k - 1].hp == g.enemies[k].hp,
{
    let next = Pos { x: (g.player.x + dx) as i32, y: (g.player.y + dy) as i32 };
    assert(g.enemies[i].pos == next);
    let g1 = g.record(crate::game::Action::Move(dx, dy));
    lemma_first_sentinel(g1.enemies, next, i, 0);
    let left = g1.enemies[i].hp - 3;
    let hit = GameView { enemies: g1.enemies.update(i, Enemy { hp: left as i32, ..g1.enemies[i] }), ..g1 }.log(
        "combat"@,
        "You hit a sentinel for 3 damage."@,
    );
    if left <= 0 {
        let gone = GameView { enemies: hit.enemies.remove(i), kills: (hit.kills + 1) as u32, ..hit }.log(
            "combat"@,
            "Sentinel disabled."@,
        ).shift_standing(crate::game::Faction::Custodians, -1);
        assert(spec_step(g, dx, dy) == finish_turn(gone));
        lemma_turn_end(gone);
        assert forall|k: int| i < k < g.enemies.len() implies #[trigger] spec_step(g, dx, dy).enemies[k - 1].hp
            == g.enemies[k].hp by {
            assert(gone.enemies[k - 1] == hit.enemies[k]);
        }
        assert forall|k: int| 0 <= k < i implies #[trigger] spec_step(g, dx, dy).enemies[k].hp == g.enemies[k].hp by {
            assert(gone.enemies[k] == hit.enemies[k]);
        }
    } else {
        assert(spec_step(g, dx, dy) == finish_turn(hit));
        lemma_turn_end(hit);
        assert forall|k: int| 0 <= k < g.enemies.len() && k != i implies #[trigger] spec_step(g, dx, dy).enemies[k].hp
            == g.enemies[k].hp by {
            assert(hit.enemies[k] == g.enemies[k]);
        }
    }
}

/// A scanner pulse, fitted and powered, leaves in sight exactly the tiles
/// within a radius of 11 of the player with a clear line to them, and puts
/// them on the explored map.
pub proof fn law_scan_sees_eleven(g: GameView)
    requires
        g.outcome == Outcome::Exploring,
        g.has(Module::Scanner),
        g.energy >= 1,
    ensures
        spec_scan(g).player == g.player,
        spec_scan(g).visible.len() == g.visible.len(),
        forall|c: int|
            0 <= c < g.visible.len() ==> #[trigger] spec_scan(g).visible[c] == (0 <= c < CELLS && in_view(
                g.tiles,
                g.player,
                11,
                pos_of(c).x as int,
                pos_of(c).y as int,
            )),
        forall|c: int| 0 <= c < g.visible.len() && c < spec_scan(g).seen.len() && #[trigger] spec_scan(g).visible[c]
            ==> spec_scan(g).seen[c],
{
    let g1 = g.record(crate::game::Action::Scan);
    let g2 = GameView { energy: (g1.energy - 1) as u32, ..g1 }.log(
        "scan"@,
        "Scanner pulse extends sight until your next action. Walls still block it."@,
    );
    lemma_turn_end(g2);
    let f = finish_turn(g2);
    assert(spec_scan(g) == crate::sight::with_view(f, 11));
}

/// The relay can be restored once all three archives are recovered; doing
/// so raises the standing with both factions by one, within -20 to 20.
pub proof fn law_restoring_the_relay_raises_both_standings(g: GameView)
    requires
        g.outcome == Outcome::Exploring,
        g.archives.len() == 3,
        forall|k: int| 0 <= k < 3 ==> (#[trigger] g.archives[k]).recovered,
        manhattan(g.player, g.relay) <= 1,
        !g.restored,
        g.standing.len() == 2,
    ensures
        spec_interact(g).restored,
        spec_interact(g).standing.len() == 2,
        spec_interact(g).standing[0] == (if g.standing[0] >= 20 {
            20
        } else if g.standing[0] < -21 {
            -20
        } else {
            g.standing[0] + 1
        }),
        spec_interact(g).standing[1] == (if g.standing[1] >= 20 {
            20
        } else if g.standing[1] < -21 {
            -20
        } else {
            g.standing[1] + 1
        }),
{
    assert(adjacent_archive(g.archives, g.player, 3) is None) by {
        reveal_with_fuel(adjacent_archive, 4);
    }
    assert(count_recovered(g.archives) == 3) by {
        reveal_with_fuel(count_recovered, 4);
        assert(g.archives.drop_last().drop_last().drop_last() =~= Seq::<Archive>::empty());
    }
    let a = GameView { restored: true, ..g.record(crate::game::Action::Interact) }.log(
        "relay"@,
        "Relay restored. Return to the surface lift."@,
    );
    let b = a.shift_standing(crate::game::Faction::Wardens, 1);
    let c = b.shift_standing(crate::game::Faction::Custodians, 1);
    assert(spec_interact(g) == finish_turn(c));
    lemma_turn_end(c);
}

/// How a run is ranked: a lost run is "Lost Signal"; an escape without a
/// kill is "Silent Signal", with four or more kills "Custodian's Bane", and
/// otherwise "Warden's Friend" when the Wardens' standing is at least 3,
/// else "Signal Bearer". An escape with Custodian standing of 1 or more ends
/// with the Custodians standing down.
pub proof fn law_runs_are_ranked(g: GameView)
    requires
        g.standing.len() == 2,
    ensures
        g.outcome == Outcome::Dead ==> spec_rank(g) == "Lost Signal"@,
        g.outcome == Outcome::Exploring ==> spec_rank(g) == "Expedition in progress"@,
        g.outcome == Outcome::Escaped && g.kills == 0 ==> spec_rank(g) == "Silent Signal"@,
        g.outcome == Outcome::Escaped && g.kills >= 4 ==> spec_rank(g) == "Custodian's Bane"@,
        g.outcome == Outcome::Escaped && 1 <= g.kills < 4 && g.standing[0] >= 3 ==> spec_rank(g)
            == "Warden's Friend"@,
        g.outcome == Outcome::Escaped && 1 <= g.kills < 4 && g.standing[0] < 3 ==> spec_rank(g)
            == "Signal Bearer"@,
        g.outcome == Outcome::Escaped && g.standing[1] >= 1 ==> spec_summary_lines(g)[3]
            == "The Custodians let the signal pass and stand down."@,
        g.outcome == Outcome::Escaped && g.standing[1] < 1 ==> spec_summary_lines(g)[3]
            == "The Wardens receive the signal. The Custodians will remember the sentinels you broke."@,
{
}

} // verus!
