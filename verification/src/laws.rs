//! Properties of the rules as a whole: replay reproduces a run, refused
//! actions change nothing, a finished expedition is frozen, and the
//! explored map is never forgotten.
use vstd::prelude::*;

use crate::game::{count_recovered, Action, ChatView, Enemy, Faction, GameView, Module, Outcome};
use crate::geom::{abs, manhattan, Pos};
use crate::gen::spec_new_with;
use crate::replay::{same_run, spec_replay, spec_replay_matches};
use crate::rules::{
    adjacent_archive, enemy_phase, find_enemy, finish_turn, lemma_enemy_phase_frame, mark_around, nearest,
    spec_apply, spec_analyze, spec_heal, spec_interact, spec_scan, spec_step, spec_wait,
};
use crate::sight::{clear_line, with_view};

verus! {

/// The rule-relevant state: everything but the event history.
pub open spec fn rules_state(g: GameView) -> GameView {
    GameView { events: Seq::empty(), ..g }
}

/// The mechanics of an expedition: everything but the event history and
/// the conversation.
pub open spec fn mechanics(g: GameView) -> GameView {
    GameView { events: Seq::empty(), chat: Seq::empty(), ..g }
}

proof fn lemma_phase_core(g1: GameView, g2: GameView, i: int)
    requires
        mechanics(g1) == mechanics(g2),
    ensures
        mechanics(enemy_phase(g1, i)) == mechanics(enemy_phase(g2, i)),
    decreases g1.enemies.len() - i,
{
    if i < 0 || i >= g1.enemies.len() {
    } else {
        let p = g1.enemies[i].pos;
        let d = manhattan(p, g1.player);
        if d == 1 {
            if g1.has(Module::Shield) && g1.energy > 0 {
                lemma_phase_core(
                    GameView { energy: (g1.energy - 1) as u32, ..g1 }.log(
                        "shield"@,
                        "Shield Cell absorbed a sentinel strike (-1 power)."@,
                    ),
                    GameView { energy: (g2.energy - 1) as u32, ..g2 }.log(
                        "shield"@,
                        "Shield Cell absorbed a sentinel strike (-1 power)."@,
                    ),
                    i + 1,
                );
            } else {
                let a1 = GameView { hp: (g1.hp - 1) as i32, ..g1 }.log(
                    "damage"@,
                    "A sentinel strikes you for 1 damage."@,
                );
                let a2 = GameView { hp: (g2.hp - 1) as i32, ..g2 }.log(
                    "damage"@,
                    "A sentinel strikes you for 1 damage."@,
                );
                if a1.hp > 0 {
                    lemma_phase_core(a1, a2, i + 1);
                }
            }
        } else if d <= 7 && clear_line(g1.tiles, p, g1.player) {
            assert(g1.chase(p) == g2.chase(p));
            match g1.chase(p) {
                Some(q) => lemma_phase_core(
                    GameView { enemies: g1.enemies.update(i, Enemy { pos: q, ..g1.enemies[i] }), ..g1 },
                    GameView { enemies: g2.enemies.update(i, Enemy { pos: q, ..g2.enemies[i] }), ..g2 },
                    i + 1,
                ),
                None => lemma_phase_core(g1, g2, i + 1),
            }
        } else {
            lemma_phase_core(g1, g2, i + 1);
        }
    }
}

proof fn lemma_view_core(g1: GameView, g2: GameView, r: int)
    requires
        mechanics(g1) == mechanics(g2),
    ensures
        mechanics(with_view(g1, r)) == mechanics(with_view(g2, r)),
{
    assert(g1.tiles == g2.tiles && g1.player == g2.player && g1.seen == g2.seen && g1.visible == g2.visible);
    assert(with_view(g1, r).visible =~= with_view(g2, r).visible);
    assert(with_view(g1, r).seen =~= with_view(g2, r).seen);
}

proof fn lemma_finish_core(g1: GameView, g2: GameView)
    requires
        mechanics(g1) == mechanics(g2),
    ensures
        mechanics(finish_turn(g1)) == mechanics(finish_turn(g2)),
{
    let t1 = GameView { turn: (g1.turn + 1) as u32, ..g1 };
    let t2 = GameView { turn: (g2.turn + 1) as u32, ..g2 };
    assert(mechanics(t1) == mechanics(t2));
    lemma_phase_core(t1, t2, 0);
    lemma_view_core(enemy_phase(t1, 0), enemy_phase(t2, 0), 7);
}

proof fn lemma_step_core(g1: GameView, g2: GameView, dx: i32, dy: i32)
    requires
        mechanics(g1) == mechanics(g2),
    ensures
        mechanics(spec_step(g1, dx, dy)) == mechanics(spec_step(g2, dx, dy)),
{
    let nx = g1.player.x + dx;
    let ny = g1.player.y + dy;
    if g1.outcome != Outcome::Exploring || abs(dx as int) + abs(dy as int) != 1 || !g1.floor_at(nx, ny) {
    } else {
        let next = Pos { x: nx as i32, y: ny as i32 };
        let r1 = g1.record(Action::Move(dx, dy));
        let r2 = g2.record(Action::Move(dx, dy));
        match find_enemy(r1.enemies, next, 0) {
            Some(i) => {
                let h = r1.enemies[i].hp - 3;
                let a1 = GameView { enemies: r1.enemies.update(i, Enemy { hp: h as i32, ..r1.enemies[i] }), ..r1 }.log(
                    "combat"@,
                    "You hit a sentinel for 3 damage."@,
                );
                let a2 = GameView { enemies: r2.enemies.update(i, Enemy { hp: h as i32, ..r2.enemies[i] }), ..r2 }.log(
                    "combat"@,
                    "You hit a sentinel for 3 damage."@,
                );
                if h <= 0 {
                    let b1 = GameView { enemies: a1.enemies.remove(i), kills: (a1.kills + 1) as u32, ..a1 }.log(
                        "combat"@,
                        "Sentinel disabled."@,
                    ).shift_standing(Faction::Custodians, -1);
                    let b2 = GameView { enemies: a2.enemies.remove(i), kills: (a2.kills + 1) as u32, ..a2 }.log(
                        "combat"@,
                        "Sentinel disabled."@,
                    ).shift_standing(Faction::Custodians, -1);
                    lemma_finish_core(b1, b2);
                } else {
                    lemma_finish_core(a1, a2);
                }
            },
            None => lemma_finish_core(GameView { player: next, ..r1 }, GameView { player: next, ..r2 }),
        }
    }
}

proof fn lemma_heal_core(g1: GameView, g2: GameView)
    requires
        mechanics(g1) == mechanics(g2),
    ensures
        mechanics(spec_heal(g1)) == mechanics(spec_heal(g2)),
{
    if g1.outcome == Outcome::Exploring && g1.medkits != 0 && g1.hp != 24 {
        let r1 = g1.record(Action::Heal);
        let r2 = g2.record(Action::Heal);
        lemma_finish_core(
            GameView {
                medkits: (r1.medkits - 1) as u32,
                hp: if r1.hp + 10 < 24 { (r1.hp + 10) as i32 } else { 24 },
                ..r1
            }.log("healing"@, "Used a medkit: restored up to 10 health."@),
            GameView {
                medkits: (r2.medkits - 1) as u32,
                hp: if r2.hp + 10 < 24 { (r2.hp + 10) as i32 } else { 24 },
                ..r2
            }.log("healing"@, "Used a medkit: restored up to 10 health."@),
        );
    }
}

proof fn lemma_scan_core(g1: GameView, g2: GameView)
    requires
        mechanics(g1) == mechanics(g2),
    ensures
        mechanics(spec_scan(g1)) == mechanics(spec_scan(g2)),
{
    if g1.outcome == Outcome::Exploring && g1.has(Module::Scanner) && g1.energy >= 1 {
        let r1 = g1.record(Action::Scan);
        let r2 = g2.record(Action::Scan);
        let a1 = GameView { energy: (r1.energy - 1) as u32, ..r1 }.log(
            "scan"@,
            "Scanner pulse extends sight until your next action. Walls still block it."@,
        );
        let a2 = GameView { energy: (r2.energy - 1) as u32, ..r2 }.log(
            "scan"@,
            "Scanner pulse extends sight until your next action. Walls still block it."@,
        );
        lemma_finish_core(a1, a2);
        lemma_view_core(finish_turn(a1), finish_turn(a2), 11);
    }
}

proof fn lemma_analyze_core(g1: GameView, g2: GameView)
    requires
        mechanics(g1) == mechanics(g2),
    ensures
        mechanics(spec_analyze(g1)) == mechanics(spec_analyze(g2)),
{
    if g1.outcome == Outcome::Exploring && g1.has(Module::Analyzer) && g1.energy >= 2 {
        match nearest(g1.archives, g1.player, g1.archives.len() as int) {
            None => {},
            Some(k) => {
                let t = g1.archives[k].pos;
                let msg = "Analyzer pinged an archive "@ + crate::text::decimal(manhattan(g1.player, t))
                    + " tiles away, to the "@ + crate::rules::direction(t.x - g1.player.x, t.y - g1.player.y)
                    + ". It is now on your map."@;
                let r1 = g1.record(Action::Analyze);
                let r2 = g2.record(Action::Analyze);
                lemma_finish_core(
                    GameView { energy: (r1.energy - 2) as u32, seen: mark_around(r1.seen, t), ..r1 }.log(
                        "analysis"@,
                        msg,
                    ),
                    GameView { energy: (r2.energy - 2) as u32, seen: mark_around(r2.seen, t), ..r2 }.log(
                        "analysis"@,
                        msg,
                    ),
                );
            },
        }
    }
}

proof fn lemma_interact_core(g1: GameView, g2: GameView)
    requires
        mechanics(g1) == mechanics(g2),
    ensures
        mechanics(spec_interact(g1)) == mechanics(spec_interact(g2)),
{
    if g1.outcome == Outcome::Exploring {
        match adjacent_archive(g1.archives, g1.player, g1.archives.len() as int) {
            Some(i) => {
                let id = g1.archives[i].id;
                let a1 = GameView {
                    archives: g1.archives.update(i, crate::game::Archive { recovered: true, ..g1.archives[i] }),
                    ..g1.record(Action::Interact)
                }.log("archive"@, crate::game::spec_record(id as int));
                let a2 = GameView {
                    archives: g2.archives.update(i, crate::game::Archive { recovered: true, ..g2.archives[i] }),
                    ..g2.record(Action::Interact)
                }.log("archive"@, crate::game::spec_record(id as int));
                if crate::game::spec_record_author(id as int) == Faction::Wardens {
                    lemma_finish_core(a1.shift_standing(Faction::Wardens, 1), a2.shift_standing(Faction::Wardens, 1));
                } else {
                    lemma_finish_core(a1, a2);
                }
            },
            None => {
                if manhattan(g1.player, g1.relay) <= 1 && count_recovered(g1.archives) == 3 && !g1.restored {
                    let a1 = GameView { restored: true, ..g1.record(Action::Interact) }.log(
                        "relay"@,
                        "Relay restored. Return to the surface lift."@,
                    ).shift_standing(Faction::Wardens, 1).shift_standing(Faction::Custodians, 1);
                    let a2 = GameView { restored: true, ..g2.record(Action::Interact) }.log(
                        "relay"@,
                        "Relay restored. Return to the surface lift."@,
                    ).shift_standing(Faction::Wardens, 1).shift_standing(Faction::Custodians, 1);
                    lemma_finish_core(a1, a2);
                }
            },
        }
    }
}

/// The rules never read the event history or the conversation: states that
/// differ only there evolve alike.
pub proof fn lemma_apply_core(g1: GameView, g2: GameView, a: Action)
    requires
        mechanics(g1) == mechanics(g2),
    ensures
        mechanics(spec_apply(g1, a)) == mechanics(spec_apply(g2, a)),
{
    reveal(spec_apply);
    match a {
        Action::Move(dx, dy) => lemma_step_core(g1, g2, dx, dy),
        Action::Wait => {
            if g1.outcome == Outcome::Exploring {
                lemma_finish_core(g1.record(Action::Wait), g2.record(Action::Wait));
            }
        },
        Action::Heal => lemma_heal_core(g1, g2),
        Action::Scan => lemma_scan_core(g1, g2),
        Action::Analyze => lemma_analyze_core(g1, g2),
        Action::Interact => lemma_interact_core(g1, g2),
    }
}

/// An action that takes effect is recorded: it is appended to the log (or,
/// once the log is full, marks the run unreplayable).
pub open spec fn recorded(g: GameView, r: GameView, a: Action) -> bool {
    ||| (g.actions.len() < crate::game::MAX_ACTIONS && r.actions == g.actions.push(a) && r.replayable
        == g.replayable)
    ||| (g.actions.len() >= crate::game::MAX_ACTIONS && r.actions == g.actions && !r.replayable)
}

proof fn lemma_finish_keeps_log(g: GameView)
    ensures
        finish_turn(g).actions == g.actions,
        finish_turn(g).replayable == g.replayable,
        finish_turn(g).seed == g.seed,
        finish_turn(g).loadout == g.loadout,
        finish_turn(g).chat == g.chat,
{
    lemma_enemy_phase_frame(GameView { turn: (g.turn + 1) as u32, ..g }, 0);
}

/// Every attempt either takes effect and is recorded, or is refused: then
/// nothing but the event history changes (no turn passes, nothing moves).
/// No action changes the seed, the fitted loadout or the conversation.
pub proof fn law_refused_actions_change_nothing(g: GameView, a: Action)
    ensures
        recorded(g, spec_apply(g, a), a) || rules_state(spec_apply(g, a)) == rules_state(g),
        spec_apply(g, a).seed == g.seed,
        spec_apply(g, a).loadout == g.loadout,
        spec_apply(g, a).chat == g.chat,
{
    reveal(spec_apply);
    let r = spec_apply(g, a);
    match a {
        Action::Move(dx, dy) => {
            let nx = g.player.x + dx;
            let ny = g.player.y + dy;
            if g.outcome != Outcome::Exploring || abs(dx as int) + abs(dy as int) != 1 || !g.floor_at(nx, ny) {
            } else {
                let next = Pos { x: nx as i32, y: ny as i32 };
                let r1 = g.record(Action::Move(dx, dy));
                match find_enemy(r1.enemies, next, 0) {
                    Some(i) => {
                        let h = r1.enemies[i].hp - 3;
                        let a1 = GameView {
                            enemies: r1.enemies.update(i, Enemy { hp: h as i32, ..r1.enemies[i] }),
                            ..r1
                        }.log("combat"@, "You hit a sentinel for 3 damage."@);
                        if h <= 0 {
                            lemma_finish_keeps_log(
                                GameView { enemies: a1.enemies.remove(i), kills: (a1.kills + 1) as u32, ..a1 }.log(
                                    "combat"@,
                                    "Sentinel disabled."@,
                                ).shift_standing(Faction::Custodians, -1),
                            );
                        } else {
                            lemma_finish_keeps_log(a1);
                        }
                    },
                    None => lemma_finish_keeps_log(GameView { player: next, ..r1 }),
                }
            }
        },
        Action::Wait => {
            if g.outcome == Outcome::Exploring {
                lemma_finish_keeps_log(g.record(Action::Wait));
            }
        },
        Action::Heal => {
            if g.outcome == Outcome::Exploring && g.medkits != 0 && g.hp != 24 {
                let r1 = g.record(Action::Heal);
                lemma_finish_keeps_log(
                    GameView {
                        medkits: (r1.medkits - 1) as u32,
                        hp: if r1.hp + 10 < 24 { (r1.hp + 10) as i32 } else { 24 },
                        ..r1
                    }.log("healing"@, "Used a medkit: restored up to 10 health."@),
                );
            }
        },
        Action::Scan => {
            if g.outcome == Outcome::Exploring && g.has(Module::Scanner) && g.energy >= 1 {
                let r1 = g.record(Action::Scan);
                lemma_finish_keeps_log(
                    GameView { energy: (r1.energy - 1) as u32, ..r1 }.log(
                        "scan"@,
                        "Scanner pulse extends sight until your next action. Walls still block it."@,
                    ),
                );
            }
        },
        Action::Analyze => {
            if g.outcome == Outcome::Exploring && g.has(Module::Analyzer) && g.energy >= 2 {
                match nearest(g.archives, g.player, g.archives.len() as int) {
                    None => {},
                    Some(k) => {
                        let t = g.archives[k].pos;
                        let r1 = g.record(Action::Analyze);
                        lemma_finish_keeps_log(
                            GameView { energy: (r1.energy - 2) as u32, seen: mark_around(r1.seen, t), ..r1 }.log(
                                "analysis"@,
                                "Analyzer pinged an archive "@ + crate::text::decimal(manhattan(g.player, t))
                                    + " tiles away, to the "@ + crate::rules::direction(
                                    t.x - g.player.x,
                                    t.y - g.player.y,
                                ) + ". It is now on your map."@,
                            ),
                        );
                    },
                }
            }
        },
        Action::Interact => {
            if g.outcome == Outcome::Exploring {
                match adjacent_archive(g.archives, g.player, g.archives.len() as int) {
                    Some(i) => {
                        let id = g.archives[i].id;
                        let a1 = GameView {
                            archives: g.archives.update(i, crate::game::Archive { recovered: true, ..g.archives[i] }),
                            ..g.record(Action::Interact)
                        }.log("archive"@, crate::game::spec_record(id as int));
                        if crate::game::spec_record_author(id as int) == Faction::Wardens {
                            lemma_finish_keeps_log(a1.shift_standing(Faction::Wardens, 1));
                        } else {
                            lemma_finish_keeps_log(a1);
                        }
                    },
                    None => {
                        if manhattan(g.player, g.relay) <= 1 && count_recovered(g.archives) == 3 && !g.restored {
                            lemma_finish_keeps_log(
                                GameView { restored: true, ..g.record(Action::Interact) }.log(
                                    "relay"@,
                                    "Relay restored. Return to the surface lift."@,
                                ).shift_standing(Faction::Wardens, 1).shift_standing(Faction::Custodians, 1),
                            );
                        }
                    },
                }
            }
        },
    }
}

/// Once an expedition is over (escaped or lost), no action changes it.
pub proof fn law_finished_expedition_is_frozen(g: GameView, a: Action)
    requires
        g.outcome != Outcome::Exploring,
    ensures
        spec_apply(g, a) == g,
{
    reveal(spec_apply);
}

/// The central guarantee of the action log: whatever sequence of actions a
/// player attempts from a seed and loadout, replaying the recorded log from
/// the same seed and loadout reproduces the run exactly (all of the state
/// but the event history), as long as the log did not overflow.
pub proof fn law_replay_reproduces_the_run(seed: u64, loadout: Seq<Module>, attempts: Seq<Action>)
    ensures
        spec_replay(seed, loadout, attempts).seed == seed,
        spec_replay(seed, loadout, attempts).loadout == loadout,
        spec_replay(seed, loadout, attempts).replayable ==> rules_state(
            spec_replay(seed, loadout, spec_replay(seed, loadout, attempts).actions),
        ) == rules_state(spec_replay(seed, loadout, attempts)),
    decreases attempts.len(),
{
    let g = spec_replay(seed, loadout, attempts);
    if attempts.len() == 0 {
        assert(g.actions =~= Seq::<Action>::empty());
        assert(spec_replay(seed, loadout, g.actions) == g);
    } else {
        let prev = attempts.drop_last();
        let a = attempts.last();
        let gp = spec_replay(seed, loadout, prev);
        law_replay_reproduces_the_run(seed, loadout, prev);
        law_refused_actions_change_nothing(gp, a);
        assert(g == spec_apply(gp, a));
        if g.replayable {
            if recorded(gp, g, a) {
                assert(gp.replayable);
                assert(g.actions == gp.actions.push(a));
                assert(g.actions.drop_last() =~= gp.actions);
                let rp = spec_replay(seed, loadout, gp.actions);
                assert(spec_replay(seed, loadout, g.actions) == spec_apply(rp, a));
                lemma_apply_core(rp, gp, a);
                law_refused_actions_change_nothing(rp, a);
                assert(rules_state(spec_apply(rp, a)) == rules_state(g));
            } else {
                assert(rules_state(g) == rules_state(gp));
                assert(g.actions == gp.actions);
            }
        }
    }
}

/// A run whose log did not overflow passes the tamper check: replaying its
/// log reproduces its position, health, supplies, clock, outcome, relay,
/// kills, standing, recovered archives and sentinels.
pub proof fn law_untampered_runs_match(seed: u64, loadout: Seq<Module>, attempts: Seq<Action>)
    ensures
        spec_replay(seed, loadout, attempts).replayable ==> spec_replay_matches(
            spec_replay(seed, loadout, attempts),
        ),
{
    let g = spec_replay(seed, loadout, attempts);
    law_replay_reproduces_the_run(seed, loadout, attempts);
    if g.replayable {
        let r = spec_replay(seed, loadout, g.actions);
        assert(rules_state(r) == rules_state(g));
        assert(r.player == g.player && r.archives == g.archives && r.enemies == g.enemies);
        assert(same_run(r, g));
    }
}


/// `r` remembers every tile `g` had explored.
pub open spec fn remembers(g: GameView, r: GameView) -> bool {
    &&& r.seen.len() == g.seen.len()
    &&& r.visible.len() == g.visible.len()
    &&& forall|i: int| 0 <= i < g.seen.len() && g.seen[i] ==> #[trigger] r.seen[i]
}

/// Whatever is in sight is on the explored map.
pub open spec fn sight_explored(g: GameView) -> bool {
    &&& g.seen.len() == g.visible.len()
    &&& forall|i: int| 0 <= i < g.visible.len() && #[trigger] g.visible[i] ==> g.seen[i]
}

proof fn lemma_view_remembers(g: GameView, r: int)
    ensures
        remembers(g, with_view(g, r)),
        g.seen.len() == g.visible.len() ==> sight_explored(with_view(g, r)),
{
}

proof fn lemma_finish_remembers(g: GameView)
    ensures
        remembers(g, finish_turn(g)),
        sight_explored(g) ==> sight_explored(finish_turn(g)),
{
    let g1 = GameView { turn: (g.turn + 1) as u32, ..g };
    lemma_enemy_phase_frame(g1, 0);
    lemma_view_remembers(enemy_phase(g1, 0), 7);
}

/// The explored map only grows: no action, taken or refused, forgets a tile
/// once explored, and what is in sight is always on the explored map.
pub proof fn law_explored_map_only_grows(g: GameView, a: Action)
    ensures
        remembers(g, spec_apply(g, a)),
        sight_explored(g) ==> sight_explored(spec_apply(g, a)),
{
    reveal(spec_apply);
    match a {
        Action::Move(dx, dy) => {
            let nx = g.player.x + dx;
            let ny = g.player.y + dy;
            if g.outcome != Outcome::Exploring || abs(dx as int) + abs(dy as int) != 1 || !g.floor_at(nx, ny) {
            } else {
                let next = Pos { x: nx as i32, y: ny as i32 };
                let r1 = g.record(Action::Move(dx, dy));
                match find_enemy(r1.enemies, next, 0) {
                    Some(i) => {
                        let h = r1.enemies[i].hp - 3;
                        let a1 = GameView {
                            enemies: r1.enemies.update(i, Enemy { hp: h as i32, ..r1.enemies[i] }),
                            ..r1
                        }.log("combat"@, "You hit a sentinel for 3 damage."@);
                        if h <= 0 {
                            lemma_finish_remembers(
                                GameView { enemies: a1.enemies.remove(i), kills: (a1.kills + 1) as u32, ..a1 }.log(
                                    "combat"@,
                                    "Sentinel disabled."@,
                                ).shift_standing(Faction::Custodians, -1),
                            );
                        } else {
                            lemma_finish_remembers(a1);
                        }
                    },
                    None => lemma_finish_remembers(GameView { player: next, ..r1 }),
                }
            }
        },
        Action::Wait => {
            if g.outcome == Outcome::Exploring {
                lemma_finish_remembers(g.record(Action::Wait));
            }
        },
        Action::Heal => {
            if g.outcome == Outcome::Exploring && g.medkits != 0 && g.hp != 24 {
                let r1 = g.record(Action::Heal);
                lemma_finish_remembers(
                    GameView {
                        medkits: (r1.medkits - 1) as u32,
                        hp: if r1.hp + 10 < 24 { (r1.hp + 10) as i32 } else { 24 },
                        ..r1
                    }.log("healing"@, "Used a medkit: restored up to 10 health."@),
                );
            }
        },
        Action::Scan => {
            if g.outcome == Outcome::Exploring && g.has(Module::Scanner) && g.energy >= 1 {
                let r1 = g.record(Action::Scan);
                let a1 = GameView { energy: (r1.energy - 1) as u32, ..r1 }.log(
                    "scan"@,
                    "Scanner pulse extends sight until your next action. Walls still block it."@,
                );
                lemma_finish_remembers(a1);
                lemma_view_remembers(finish_turn(a1), 11);
            }
        },
        Action::Analyze => {
            if g.outcome == Outcome::Exploring && g.has(Module::Analyzer) && g.energy >= 2 {
                match nearest(g.archives, g.player, g.archives.len() as int) {
                    None => {},
                    Some(k) => {
                        let t = g.archives[k].pos;
                        let r1 = g.record(Action::Analyze);
                        let a1 = GameView { energy: (r1.energy - 2) as u32, seen: mark_around(r1.seen, t), ..r1 };
                        assert(remembers(g, a1));
                        lemma_finish_remembers(
                            a1.log(
                                "analysis"@,
                                "Analyzer pinged an archive "@ + crate::text::decimal(manhattan(g.player, t))
                                    + " tiles away, to the "@ + crate::rules::direction(
                                    t.x - g.player.x,
                                    t.y - g.player.y,
                                ) + ". It is now on your map."@,
                            ),
                        );
                    },
                }
            }
        },
        Action::Interact => {
            if g.outcome == Outcome::Exploring {
                match adjacent_archive(g.archives, g.player, g.archives.len() as int) {
                    Some(i) => {
                        let id = g.archives[i].id;
                        let a1 = GameView {
                            archives: g.archives.update(i, crate::game::Archive { recovered: true, ..g.archives[i] }),
                            ..g.record(Action::Interact)
                        }.log("archive"@, crate::game::spec_record(id as int));
                        if crate::game::spec_record_author(id as int) == Faction::Wardens {
                            lemma_finish_remembers(a1.shift_standing(Faction::Wardens, 1));
                        } else {
                            lemma_finish_remembers(a1);
                        }
                    },
                    None => {
                        if manhattan(g.player, g.relay) <= 1 && count_recovered(g.archives) == 3 && !g.restored {
                            lemma_finish_remembers(
                                GameView { restored: true, ..g.record(Action::Interact) }.log(
                                    "relay"@,
                                    "Relay restored. Return to the surface lift."@,
                                ).shift_standing(Faction::Wardens, 1).shift_standing(Faction::Custodians, 1),
                            );
                        }
                    },
                }
            }
        },
    }
}


/// A module works only when fitted and powered: without a fitted Scanner
/// Array or one power, a scan is refused; without a fitted Field Analyzer or
/// two power, an analysis is refused. Refused, they change nothing but the
/// history.
pub proof fn law_modules_need_fitting_and_power(g: GameView)
    ensures
        !g.has(Module::Scanner) || g.energy < crate::game::SCAN_COST ==> rules_state(spec_apply(g, Action::Scan))
            == rules_state(g),
        !g.has(Module::Analyzer) || g.energy < crate::game::ANALYZE_COST ==> rules_state(
            spec_apply(g, Action::Analyze),
        ) == rules_state(g),
{
    reveal(spec_apply);
}


/// Nothing in the rules restores power or medkits: each only runs down.
pub open spec fn supplies_kept(g: GameView, r: GameView) -> bool {
    r.energy <= g.energy && r.medkits <= g.medkits
}

proof fn lemma_phase_supplies(g: GameView, i: int)
    ensures
        supplies_kept(g, enemy_phase(g, i)),
    decreases g.enemies.len() - i,
{
    if i < 0 || i >= g.enemies.len() {
    } else {
        let p = g.enemies[i].pos;
        let d = manhattan(p, g.player);
        if d == 1 {
            if g.has(Module::Shield) && g.energy > 0 {
                lemma_phase_supplies(
                    GameView { energy: (g.energy - 1) as u32, ..g }.log(
                        "shield"@,
                        "Shield Cell absorbed a sentinel strike (-1 power)."@,
                    ),
                    i + 1,
                );
            } else {
                let g1 = GameView { hp: (g.hp - 1) as i32, ..g }.log(
                    "damage"@,
                    "A sentinel strikes you for 1 damage."@,
                );
                if g1.hp > 0 {
                    lemma_phase_supplies(g1, i + 1);
                }
            }
        } else if d <= 7 && clear_line(g.tiles, p, g.player) {
            match g.chase(p) {
                Some(q) => lemma_phase_supplies(
                    GameView { enemies: g.enemies.update(i, Enemy { pos: q, ..g.enemies[i] }), ..g },
                    i + 1,
                ),
                None => lemma_phase_supplies(g, i + 1),
            }
        } else {
            lemma_phase_supplies(g, i + 1);
        }
    }
}

proof fn lemma_finish_supplies(g: GameView)
    ensures
        supplies_kept(g, finish_turn(g)),
{
    lemma_phase_supplies(GameView { turn: (g.turn + 1) as u32, ..g }, 0);
}

/// Power and medkits are never restored: no action raises either.
pub proof fn law_supplies_only_run_down(g: GameView, a: Action)
    ensures
        supplies_kept(g, spec_apply(g, a)),
{
    reveal(spec_apply);
    match a {
        Action::Move(dx, dy) => {
            let nx = g.player.x + dx;
            let ny = g.player.y + dy;
            if g.outcome != Outcome::Exploring || abs(dx as int) + abs(dy as int) != 1 || !g.floor_at(nx, ny) {
            } else {
                let next = Pos { x: nx as i32, y: ny as i32 };
                let r1 = g.record(Action::Move(dx, dy));
                match find_enemy(r1.enemies, next, 0) {
                    Some(i) => {
                        let h = r1.enemies[i].hp - 3;
                        let a1 = GameView {
                            enemies: r1.enemies.update(i, Enemy { hp: h as i32, ..r1.enemies[i] }),
                            ..r1
                        }.log("combat"@, "You hit a sentinel for 3 damage."@);
                        if h <= 0 {
                            lemma_finish_supplies(
                                GameView { enemies: a1.enemies.remove(i), kills: (a1.kills + 1) as u32, ..a1 }.log(
                                    "combat"@,
                                    "Sentinel disabled."@,
                                ).shift_standing(Faction::Custodians, -1),
                            );
                        } else {
                            lemma_finish_supplies(a1);
                        }
                    },
                    None => lemma_finish_supplies(GameView { player: next, ..r1 }),
                }
            }
        },
        Action::Wait => {
            if g.outcome == Outcome::Exploring {
                lemma_finish_supplies(g.record(Action::Wait));
            }
        },
        Action::Heal => {
            if g.outcome == Outcome::Exploring && g.medkits != 0 && g.hp != 24 {
                let r1 = g.record(Action::Heal);
                lemma_finish_supplies(
                    GameView {
                        medkits: (r1.medkits - 1) as u32,
                        hp: if r1.hp + 10 < 24 { (r1.hp + 10) as i32 } else { 24 },
                        ..r1
                    }.log("healing"@, "Used a medkit: restored up to 10 health."@),
                );
            }
        },
        Action::Scan => {
            if g.outcome == Outcome::Exploring && g.has(Module::Scanner) && g.energy >= 1 {
                let r1 = g.record(Action::Scan);
                lemma_finish_supplies(
                    GameView { energy: (r1.energy - 1) as u32, ..r1 }.log(
                        "scan"@,
                        "Scanner pulse extends sight until your next action. Walls still block it."@,
                    ),
                );
            }
        },
        Action::Analyze => {
            if g.outcome == Outcome::Exploring && g.has(Module::Analyzer) && g.energy >= 2 {
                match nearest(g.archives, g.player, g.archives.len() as int) {
                    None => {},
                    Some(k) => {
                        let t = g.archives[k].pos;
                        let r1 = g.record(Action::Analyze);
                        lemma_finish_supplies(
                            GameView { energy: (r1.energy - 2) as u32, seen: mark_around(r1.seen, t), ..r1 }.log(
                                "analysis"@,
                                "Analyzer pinged an archive "@ + crate::text::decimal(manhattan(g.player, t))
                                    + " tiles away, to the "@ + crate::rules::direction(
                                    t.x - g.player.x,
                                    t.y - g.player.y,
                                ) + ". It is now on your map."@,
                            ),
                        );
                    },
                }
            }
        },
        Action::Interact => {
            if g.outcome == Outcome::Exploring {
                match adjacent_archive(g.archives, g.player, g.archives.len() as int) {
                    Some(i) => {
                        let id = g.archives[i].id;
                        let a1 = GameView {
                            archives: g.archives.update(i, crate::game::Archive { recovered: true, ..g.archives[i] }),
                            ..g.record(Action::Interact)
                        }.log("archive"@, crate::game::spec_record(id as int));
                        if crate::game::spec_record_author(id as int) == Faction::Wardens {
                            lemma_finish_supplies(a1.shift_standing(Faction::Wardens, 1));
                        } else {
                            lemma_finish_supplies(a1);
                        }
                    },
                    None => {
                        if manhattan(g.player, g.relay) <= 1 && count_recovered(g.archives) == 3 && !g.restored {
                            lemma_finish_supplies(
                                GameView { restored: true, ..g.record(Action::Interact) }.log(
                                    "relay"@,
                                    "Relay restored. Return to the surface lift."@,
                                ).shift_standing(Faction::Wardens, 1).shift_standing(Faction::Custodians, 1),
                            );
                        }
                    },
                }
            }
        },
    }
}


/// What the companion says never changes the game: an expedition with any
/// other conversation evolves exactly alike under every action, apart from
/// the event history, and no action changes the conversation.
pub proof fn law_conversation_never_changes_the_rules(g: GameView, talk: Seq<ChatView>, a: Action)
    ensures
        mechanics(spec_apply(GameView { chat: talk, ..g }, a)) == mechanics(spec_apply(g, a)),
        spec_apply(GameView { chat: talk, ..g }, a).chat == talk,
{
    let h = GameView { chat: talk, ..g };
    assert(mechanics(h) == mechanics(g));
    lemma_apply_core(h, g, a);
    law_refused_actions_change_nothing(h, a);
}


/// The log replays from the seed and loadout to this state (all of it but
/// the event history and the conversation), or it has overflowed.
pub open spec fn faithful(g: GameView) -> bool {
    g.replayable ==> mechanics(spec_replay(g.seed, g.loadout, g.actions)) == mechanics(g)
}

/// A new expedition's log is faithful.
pub proof fn law_new_expeditions_are_faithful(seed: u64, loadout: Seq<Module>)
    ensures
        faithful(spec_new_with(seed, loadout)),
{
    let g = spec_new_with(seed, loadout);
    assert(g.actions =~= Seq::<Action>::empty());
    assert(spec_replay(g.seed, g.loadout, g.actions) == g);
}

/// Every action, taken or refused, keeps the log faithful.
pub proof fn law_actions_keep_the_log_faithful(g: GameView, a: Action)
    requires
        faithful(g),
    ensures
        faithful(spec_apply(g, a)),
{
    let r = spec_apply(g, a);
    law_refused_actions_change_nothing(g, a);
    if r.replayable {
        if g.actions.len() < crate::game::MAX_ACTIONS && r.actions == g.actions.push(a) && r.replayable
            == g.replayable {
            assert(r.actions.drop_last() =~= g.actions);
            let rp = spec_replay(g.seed, g.loadout, g.actions);
            assert(spec_replay(r.seed, r.loadout, r.actions) == spec_apply(rp, a));
            lemma_apply_core(rp, g, a);
        } else {
            assert(rules_state(r) == rules_state(g));
            assert(mechanics(r) == mechanics(g));
        }
    }
}

/// Adding to the event history or replacing the conversation keeps the log
/// faithful.
pub proof fn law_history_and_talk_keep_the_log_faithful(
    g: GameView,
    kind: Seq<char>,
    text: Seq<char>,
    talk: Seq<ChatView>,
)
    requires
        faithful(g),
    ensures
        faithful(g.log(kind, text)),
        faithful(GameView { chat: talk, ..g }),
{
    assert(mechanics(g.log(kind, text)) == mechanics(g));
    assert(mechanics(GameView { chat: talk, ..g }) == mechanics(g));
}

/// A faithful run whose log did not overflow passes the tamper check. With
/// the laws above: from a new expedition, any sequence of actions, history
/// entries and conversation, however interleaved, leaves a run that
/// `replay_matches` accepts unless its log overflowed.
pub proof fn law_faithful_runs_match(g: GameView)
    requires
        faithful(g),
        g.replayable,
    ensures
        spec_replay_matches(g),
{
    let r = spec_replay(g.seed, g.loadout, g.actions);
    assert(mechanics(r) == mechanics(g));
    assert(r.tiles == g.tiles && r.seen == g.seen && r.archives == g.archives && r.enemies == g.enemies);
    assert(same_run(r, g));
}

} // verus!
