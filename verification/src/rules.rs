//! The turn rules: what every player action does to an expedition, stated as
//! functions on the game's view and implemented on `Game`.
use vstd::prelude::*;
use vstd::string::StringExecFns;

use crate::game::{
    count_recovered, floor_in, in_grid, pos_of, spec_record, spec_record_author, record_author,
    record_text, cell, lemma_cell_pos, lemma_pos_cell, Action, Archive, ChatView, Enemy, Event,
    EventView, Faction, Game, GameView, Module, Outcome, Chat, ANALYZE_COST, CELLS, MAX_ACTIONS,
    MAX_CHAT, MAX_EVENTS, CHAT_CHARS, SCAN_COST,
};
use crate::geom::{abs, manhattan, Pos};
use crate::sight::{clear_line, with_view};
use crate::text::{decimal, owned, push_decimal, push_signed, signed, take_chars};

verus! {

/// The last `n` elements of `s` (all of them when there are fewer).
pub open spec fn capped<T>(s: Seq<T>, n: int) -> Seq<T> {
    if s.len() > n {
        s.skip(s.len() - n)
    } else {
        s
    }
}

pub open spec fn clamp(v: int, lo: int, hi: int) -> int {
    if v < lo {
        lo
    } else if v > hi {
        hi
    } else {
        v
    }
}

/// An index as an integer.
pub open spec fn as_index(o: Option<usize>) -> Option<int> {
    match o {
        Some(k) => Some(k as int),
        None => None,
    }
}

/// Index of the first sentinel at `p`, searching from `i`.
pub open spec fn find_enemy(e: Seq<Enemy>, p: Pos, i: int) -> Option<int>
    decreases e.len() - i,
{
    if i < 0 || i >= e.len() {
        None
    } else if e[i].pos == p {
        Some(i)
    } else {
        find_enemy(e, p, i + 1)
    }
}

pub proof fn lemma_find_enemy(e: Seq<Enemy>, p: Pos, i: int)
    ensures
        find_enemy(e, p, i) matches Some(k) ==> i <= k < e.len() && e[k].pos == p,
    decreases e.len() - i,
{
    if i >= 0 && i < e.len() && e[i].pos != p {
        lemma_find_enemy(e, p, i + 1);
    }
}

/// Some sentinel stands at `(x, y)`.
pub open spec fn occupied(e: Seq<Enemy>, x: int, y: int) -> bool {
    exists|j: int| 0 <= j < e.len() && e[j].pos.x == x && e[j].pos.y == y
}

/// Index of the nearest unrecovered archive among the first `n`, the first
/// one on ties.
pub open spec fn nearest(a: Seq<Archive>, p: Pos, n: int) -> Option<int>
    decreases n,
{
    if n <= 0 {
        None
    } else {
        let prev = nearest(a, p, n - 1);
        let j = n - 1;
        if a[j].recovered {
            prev
        } else {
            match prev {
                None => Some(j),
                Some(k) => if manhattan(a[j].pos, p) < manhattan(a[k].pos, p) {
                    Some(j)
                } else {
                    Some(k)
                },
            }
        }
    }
}

/// Index of the first unrecovered archive among the first `n` within one
/// step of `p`.
pub open spec fn adjacent_archive(a: Seq<Archive>, p: Pos, n: int) -> Option<int>
    decreases n,
{
    if n <= 0 {
        None
    } else {
        match adjacent_archive(a, p, n - 1) {
            Some(k) => Some(k),
            None => if !a[n - 1].recovered && manhattan(a[n - 1].pos, p) <= 1 {
                Some(n - 1)
            } else {
                None
            },
        }
    }
}

/// The compass word the analyzer uses for an offset.
pub open spec fn direction(dx: int, dy: int) -> Seq<char> {
    if abs(dx) >= abs(dy) {
        if dx >= 0 {
            "east"@
        } else {
            "west"@
        }
    } else if dy >= 0 {
        "south"@
    } else {
        "north"@
    }
}

/// `seen` with the 3x3 block around `t` marked explored.
pub open spec fn mark_around(seen: Seq<bool>, t: Pos) -> Seq<bool> {
    Seq::new(
        seen.len(),
        |i: int|
            seen[i] || (0 <= i < CELLS && abs(pos_of(i).x - t.x) <= 1 && abs(pos_of(i).y - t.y) <= 1),
    )
}

impl GameView {
    /// The state with one more event in the history, which keeps its last
    /// `MAX_EVENTS` entries.
    pub open spec fn log(self, kind: Seq<char>, text: Seq<char>) -> GameView {
        GameView {
            events: capped(
                self.events.push(EventView { turn: self.turn, kind, text }),
                MAX_EVENTS as int,
            ),
            ..self
        }
    }

    /// The state with `a` appended to the action log, or marked not
    /// replayable once the log is full.
    pub open spec fn record(self, a: Action) -> GameView {
        if self.actions.len() < MAX_ACTIONS {
            GameView { actions: self.actions.push(a), ..self }
        } else {
            GameView { replayable: false, ..self }
        }
    }

    /// The state after standing with `f` moves by `by`, kept within -20..=20.
    pub open spec fn shift_standing(self, f: Faction, by: int) -> GameView {
        let v = clamp(self.standing[f.slot()] + by, -20, 20);
        GameView { standing: self.standing.update(f.slot(), v as i32), ..self }.log(
            "standing"@,
            f.spec_name() + " standing "@ + signed(by) + " (now "@ + decimal(v) + ")."@,
        )
    }

    /// Where a sentinel at `p` steps when it closes in: the first of east,
    /// west, south and north that brings it nearer the player onto free floor.
    pub open spec fn chase(self, p: Pos) -> Option<Pos> {
        if self.chase_ok(p, p.x + 1, p.y as int) {
            Some(Pos { x: (p.x + 1) as i32, y: p.y })
        } else if self.chase_ok(p, p.x - 1, p.y as int) {
            Some(Pos { x: (p.x - 1) as i32, y: p.y })
        } else if self.chase_ok(p, p.x as int, p.y + 1) {
            Some(Pos { x: p.x, y: (p.y + 1) as i32 })
        } else if self.chase_ok(p, p.x as int, p.y - 1) {
            Some(Pos { x: p.x, y: (p.y - 1) as i32 })
        } else {
            None
        }
    }

    pub open spec fn chase_ok(self, p: Pos, x: int, y: int) -> bool {
        &&& abs(x - self.player.x) + abs(y - self.player.y) < manhattan(p, self.player)
        &&& self.floor_at(x, y)
        &&& !(x == self.player.x && y == self.player.y)
        &&& !occupied(self.enemies, x, y)
    }
}

/// The sentinels from index `i` on take their turn, in order: an adjacent
/// one strikes (a fitted shield with power absorbs it), one within seven
/// steps with a clear line closes in. A strike that empties health ends the
/// expedition at once.
pub open spec fn enemy_phase(g: GameView, i: int) -> GameView
    decreases g.enemies.len() - i,
{
    if i < 0 || i >= g.enemies.len() {
        g
    } else {
        let p = g.enemies[i].pos;
        let d = manhattan(p, g.player);
        if d == 1 {
            if g.has(Module::Shield) && g.energy > 0 {
                enemy_phase(
                    GameView { energy: (g.energy - 1) as u32, ..g }.log(
                        "shield"@,
                        "Shield Cell absorbed a sentinel strike (-1 power)."@,
                    ),
                    i + 1,
                )
            } else {
                let g1 = GameView { hp: (g.hp - 1) as i32, ..g }.log(
                    "damage"@,
                    "A sentinel strikes you for 1 damage."@,
                );
                if g1.hp <= 0 {
                    GameView { hp: 0, outcome: Outcome::Dead, ..g1 }.log(
                        "death"@,
                        "Expedition lost. Start a new signal or reload your save."@,
                    )
                } else {
                    enemy_phase(g1, i + 1)
                }
            }
        } else if d <= 7 && clear_line(g.tiles, p, g.player) {
            match g.chase(p) {
                Some(q) => enemy_phase(
                    GameView { enemies: g.enemies.update(i, Enemy { pos: q, ..g.enemies[i] }), ..g },
                    i + 1,
                ),
                None => enemy_phase(g, i + 1),
            }
        } else {
            enemy_phase(g, i + 1)
        }
    }
}

/// The sentinels' turn changes only sentinels, health, power, the outcome
/// and the history.
pub proof fn lemma_enemy_phase_frame(g: GameView, i: int)
    ensures
        ({
            let r = enemy_phase(g, i);
            &&& r.seed == g.seed
            &&& r.tiles == g.tiles
            &&& r.seen == g.seen
            &&& r.visible == g.visible
            &&& r.player == g.player
            &&& r.lift == g.lift
            &&& r.relay == g.relay
            &&& r.enemies.len() == g.enemies.len()
            &&& r.archives == g.archives
            &&& r.medkits == g.medkits
            &&& r.turn == g.turn
            &&& r.restored == g.restored
            &&& r.chat == g.chat
            &&& r.loadout == g.loadout
            &&& r.actions == g.actions
            &&& r.replayable == g.replayable
            &&& r.kills == g.kills
            &&& r.standing == g.standing
        }),
    decreases g.enemies.len() - i,
{
    if i < 0 || i >= g.enemies.len() {
    } else {
        let p = g.enemies[i].pos;
        let d = manhattan(p, g.player);
        if d == 1 {
            if g.has(Module::Shield) && g.energy > 0 {
                lemma_enemy_phase_frame(
                    GameView { energy: (g.energy - 1) as u32, ..g }.log(
                        "shield"@,
                        "Shield Cell absorbed a sentinel strike (-1 power)."@,
                    ),
                    i + 1,
                );
            } else {
                let g1 = GameView { hp: (g.hp - 1) as i32, ..g }.log(
                    "damage"@,
                    "A sentinel strikes you for 1 damage."@,
                );
                if g1.hp > 0 {
                    lemma_enemy_phase_frame(g1, i + 1);
                }
            }
        } else if d <= 7 && clear_line(g.tiles, p, g.player) {
            match g.chase(p) {
                Some(q) => lemma_enemy_phase_frame(
                    GameView { enemies: g.enemies.update(i, Enemy { pos: q, ..g.enemies[i] }), ..g },
                    i + 1,
                ),
                None => lemma_enemy_phase_frame(g, i + 1),
            }
        } else {
            lemma_enemy_phase_frame(g, i + 1);
        }
    }
}

/// End of a successful player turn: the clock advances, sentinels act, and
/// the field of view (radius 7) is recomputed.
pub open spec fn finish_turn(g: GameView) -> GameView {
    with_view(enemy_phase(GameView { turn: (g.turn + 1) as u32, ..g }, 0), 7)
}

/// Moving (or bumping a sentinel) by `(dx, dy)`.
pub open spec fn spec_step(g: GameView, dx: i32, dy: i32) -> GameView {
    let nx = g.player.x + dx;
    let ny = g.player.y + dy;
    if g.outcome != Outcome::Exploring || abs(dx as int) + abs(dy as int) != 1 || !g.floor_at(nx, ny) {
        g
    } else {
        let next = Pos { x: nx as i32, y: ny as i32 };
        let g1 = g.record(Action::Move(dx, dy));
        let g2 = match find_enemy(g1.enemies, next, 0) {
            Some(i) => {
                let h = g1.enemies[i].hp - 3;
                let ga = GameView {
                    enemies: g1.enemies.update(i, Enemy { hp: h as i32, ..g1.enemies[i] }),
                    ..g1
                }.log("combat"@, "You hit a sentinel for 3 damage."@);
                if h <= 0 {
                    GameView { enemies: ga.enemies.remove(i), kills: (ga.kills + 1) as u32, ..ga }.log(
                        "combat"@,
                        "Sentinel disabled."@,
                    ).shift_standing(Faction::Custodians, -1)
                } else {
                    ga
                }
            },
            None => GameView { player: next, ..g1 },
        };
        finish_turn(g2)
    }
}

pub open spec fn spec_wait(g: GameView) -> GameView {
    if g.outcome == Outcome::Exploring {
        finish_turn(g.record(Action::Wait))
    } else {
        g
    }
}

pub open spec fn spec_heal(g: GameView) -> GameView {
    if g.outcome != Outcome::Exploring {
        g
    } else if g.medkits == 0 {
        g.log("status"@, "No medkits remain."@)
    } else if g.hp == 24 {
        g.log("status"@, "Health is already full."@)
    } else {
        let g1 = g.record(Action::Heal);
        finish_turn(
            GameView {
                medkits: (g1.medkits - 1) as u32,
                hp: if g1.hp + 10 < 24 { (g1.hp + 10) as i32 } else { 24 },
                ..g1
            }.log("healing"@, "Used a medkit: restored up to 10 health."@),
        )
    }
}

pub open spec fn spec_scan(g: GameView) -> GameView {
    if g.outcome != Outcome::Exploring {
        g
    } else if !g.has(Module::Scanner) {
        g.log("status"@, "No Scanner Array fitted. Change your loadout before an expedition."@)
    } else if g.energy < SCAN_COST {
        g.log("status"@, "Not enough power for a scanner pulse."@)
    } else {
        let g1 = g.record(Action::Scan);
        with_view(
            finish_turn(
                GameView { energy: (g1.energy - SCAN_COST) as u32, ..g1 }.log(
                    "scan"@,
                    "Scanner pulse extends sight until your next action. Walls still block it."@,
                ),
            ),
            11,
        )
    }
}

pub open spec fn spec_analyze(g: GameView) -> GameView {
    if g.outcome != Outcome::Exploring {
        g
    } else if !g.has(Module::Analyzer) {
        g.log("status"@, "No Field Analyzer fitted. Change your loadout before an expedition."@)
    } else if g.energy < ANALYZE_COST {
        g.log("status"@, "Not enough power for the analyzer (needs 2)."@)
    } else {
        match nearest(g.archives, g.player, g.archives.len() as int) {
            None => g.log("status"@, "No unrecovered archives remain to analyze."@),
            Some(k) => {
                let t = g.archives[k].pos;
                let g1 = g.record(Action::Analyze);
                let g2 = GameView {
                    energy: (g1.energy - ANALYZE_COST) as u32,
                    seen: mark_around(g1.seen, t),
                    ..g1
                };
                finish_turn(
                    g2.log(
                        "analysis"@,
                        "Analyzer pinged an archive "@ + decimal(manhattan(g.player, t))
                            + " tiles away, to the "@ + direction(t.x - g.player.x, t.y - g.player.y)
                            + ". It is now on your map."@,
                    ),
                )
            },
        }
    }
}

pub open spec fn spec_interact(g: GameView) -> GameView {
    if g.outcome != Outcome::Exploring {
        g
    } else {
        match adjacent_archive(g.archives, g.player, g.archives.len() as int) {
            Some(i) => {
                let id = g.archives[i].id;
                let g1 = GameView {
                    archives: g.archives.update(i, Archive { recovered: true, ..g.archives[i] }),
                    ..g.record(Action::Interact)
                }.log("archive"@, spec_record(id as int));
                let g2 = if spec_record_author(id as int) == Faction::Wardens {
                    g1.shift_standing(Faction::Wardens, 1)
                } else {
                    g1
                };
                finish_turn(g2)
            },
            None => if manhattan(g.player, g.relay) <= 1 {
                if count_recovered(g.archives) == 3 && !g.restored {
                    finish_turn(
                        GameView { restored: true, ..g.record(Action::Interact) }.log(
                            "relay"@,
                            "Relay restored. Return to the surface lift."@,
                        ).shift_standing(Faction::Wardens, 1).shift_standing(Faction::Custodians, 1),
                    )
                } else if !g.restored {
                    g.log("status"@, "Relay needs three recovered archive keys."@)
                } else {
                    g.log("status"@, "Relay is online. Return to the surface lift."@)
                }
            } else if manhattan(g.player, g.lift) <= 1 {
                if g.restored {
                    GameView { outcome: Outcome::Escaped, ..g.record(Action::Interact) }.log(
                        "escape"@,
                        "Signal transmitted. You escaped with the recovered evidence."@,
                    )
                } else {
                    g.log("status"@, "Restore the relay before departure."@)
                }
            } else {
                g.log(
                    "status"@,
                    "Nothing to interact with here. Stand beside an archive, relay, or lift."@,
                )
            },
        }
    }
}

/// Interacting never reads a record that does not exist.
pub open spec fn interact_ok(g: GameView) -> bool {
    adjacent_archive(g.archives, g.player, g.archives.len() as int) matches Some(i)
        ==> g.archives[i].id < 3
}

/// The effect of one recorded action.
#[verifier::opaque]
pub open spec fn spec_apply(g: GameView, a: Action) -> GameView {
    match a {
        Action::Move(dx, dy) => spec_step(g, dx, dy),
        Action::Wait => spec_wait(g),
        Action::Heal => spec_heal(g),
        Action::Scan => spec_scan(g),
        Action::Analyze => spec_analyze(g),
        Action::Interact => spec_interact(g),
    }
}

/// Manhattan distance, computed without overflow.
pub fn dist(a: Pos, b: Pos) -> (d: i64)
    ensures
        d == manhattan(a, b),
{
    let dx: i64 = a.x as i64 - b.x as i64;
    let dy: i64 = a.y as i64 - b.y as i64;
    (if dx < 0 { -dx } else { dx }) + (if dy < 0 { -dy } else { dy })
}

impl Game {
    /// Append an event to the history, which keeps its last 2000 entries.
    pub fn log(&mut self, kind: &str, text: &str)
        ensures
            final(self)@ == old(self)@.log(kind@, text@),
    {
        let ghost g0 = self@;
        let e = Event { turn: self.turn, kind: owned(kind), text: owned(text) };
        self.events.push(e);
        let ghost s = g0.events.push(EventView { turn: g0.turn, kind: kind@, text: text@ });
        assert(self.events@.map_values(|e: Event| e@) =~= s);
        assert(s.skip(0) =~= s);
        while self.events.len() > MAX_EVENTS
            invariant
                self.events@.len() <= s.len(),
                self.events@.len() >= MAX_EVENTS || self.events@.len() == s.len(),
                self@ == (GameView { events: self@.events, ..g0 }),
                self@.events == s.skip(s.len() - self.events@.len()),
            decreases self.events@.len(),
        {
            let ghost before = self.events@;
            self.events.remove(0);
            assert(self.events@.map_values(|e: Event| e@) =~= s.skip(s.len() - self.events@.len())) by {
                assert forall|k: int| 0 <= k < self.events@.len() implies self.events@.map_values(
                    |e: Event| e@,
                )[k] == s.skip(s.len() - self.events@.len())[k] && #[trigger] self.events@[k] == self.events@[k] by {
                    assert(self.events@[k] == before[k + 1]);
                    assert(before.map_values(|e: Event| e@)[k + 1] == s.skip(s.len() - before.len())[k + 1]);
                }
            }
        }
        assert(self@.events =~= capped(s, MAX_EVENTS as int));
    }

    /// Add a conversation entry, keeping its first 1200 characters; the
    /// conversation keeps its last 100 entries.
    pub fn add_chat(&mut self, role: &str, text: &str)
        ensures
            final(self)@ == (GameView {
                chat: capped(
                    old(self)@.chat.push(
                        ChatView {
                            role: role@,
                            content: text@.take(
                                if text@.len() < CHAT_CHARS { text@.len() as int } else { CHAT_CHARS as int },
                            ),
                        },
                    ),
                    MAX_CHAT as int,
                ),
                ..old(self)@
            }),
    {
        let ghost g0 = self@;
        let c = Chat { role: owned(role), content: take_chars(text, CHAT_CHARS) };
        let ghost cv = c@;
        self.chat.push(c);
        let ghost s = g0.chat.push(cv);
        assert(self.chat@.map_values(|c: Chat| c@) =~= s);
        assert(s.skip(0) =~= s);
        while self.chat.len() > MAX_CHAT
            invariant
                self.chat@.len() <= s.len(),
                self.chat@.len() >= MAX_CHAT || self.chat@.len() == s.len(),
                self@ == (GameView { chat: self@.chat, ..g0 }),
                self@.chat == s.skip(s.len() - self.chat@.len()),
            decreases self.chat@.len(),
        {
            let ghost before = self.chat@;
            self.chat.remove(0);
            assert(self.chat@.map_values(|c: Chat| c@) =~= s.skip(s.len() - self.chat@.len())) by {
                assert forall|k: int| 0 <= k < self.chat@.len() implies self.chat@.map_values(
                    |c: Chat| c@,
                )[k] == s.skip(s.len() - self.chat@.len())[k] && #[trigger] self.chat@[k] == self.chat@[k] by {
                    assert(self.chat@[k] == before[k + 1]);
                    assert(before.map_values(|c: Chat| c@)[k + 1] == s.skip(s.len() - before.len())[k + 1]);
                }
            }
        }
        assert(self@.chat =~= capped(s, MAX_CHAT as int));
    }

    fn record(&mut self, a: Action)
        ensures
            final(self)@ == old(self)@.record(a),
    {
        if self.actions.len() < MAX_ACTIONS {
            self.actions.push(a);
        } else {
            self.replayable = false;
        }
    }

    fn shift_standing(&mut self, f: Faction, by: i32)
        requires
            old(self)@.standing.len() == 2,
            i32::MIN < old(self)@.standing_of(f) < i32::MAX,
            by == 1 || by == -1,
        ensures
            final(self)@ == old(self)@.shift_standing(f, by as int),
    {
        let cur = self.standing_of(f);
        let raw = cur + by;
        let v = if raw < -20 { -20 } else if raw > 20 { 20 } else { raw };
        match f {
            Faction::Wardens => { self.standing = [v, self.standing[1]]; },
            Faction::Custodians => { self.standing = [self.standing[0], v]; },
        }
        let mut msg = owned(f.name());
        msg.append(" standing ");
        push_signed(&mut msg, by as i64);
        msg.append(" (now ");
        push_decimal(&mut msg, v as i64);
        msg.append(").");
        proof {
            assert(self@.standing =~= old(self)@.standing.update(f.slot(), v));
        }
        self.log("standing", msg.as_str());
    }

    /// Is a sentinel standing at `(x, y)`?
    fn occupied(&self, x: i64, y: i64) -> (b: bool)
        ensures
            b == occupied(self@.enemies, x as int, y as int),
    {
        let mut j: usize = 0;
        while j < self.enemies.len()
            invariant
                j <= self.enemies@.len(),
                forall|k: int|
                    0 <= k < j ==> !(self.enemies@[k].pos.x == x && self.enemies@[k].pos.y == y),
            decreases self.enemies@.len() - j,
        {
            if self.enemies[j].pos.x as i64 == x && self.enemies[j].pos.y as i64 == y {
                return true;
            }
            j = j + 1;
        }
        false
    }

    fn chase_ok(&self, p: Pos, x: i64, y: i64) -> (b: bool)
        requires
            self.tiles@.len() >= CELLS,
            i32::MIN <= x <= i32::MAX,
            i32::MIN <= y <= i32::MAX,
        ensures
            b == self@.chase_ok(p, x as int, y as int),
    {
        let q = Pos { x: x as i32, y: y as i32 };
        dist(q, self.player) < dist(p, self.player) && self.floor(q) && !(x == self.player.x as i64
            && y == self.player.y as i64) && !self.occupied(x, y)
    }

    /// The step a sentinel at `p` takes towards the player, if any. Every
    /// admissible step is one nearer, so the first admissible one in the
    /// order east, west, south, north is the nearest and the first.
    fn chase(&self, p: Pos) -> (r: Option<Pos>)
        requires
            self.tiles@.len() >= CELLS,
        ensures
            r == self@.chase(p),
    {
        let x = p.x as i64;
        let y = p.y as i64;
        if x + 1 <= i32::MAX as i64 && self.chase_ok(p, x + 1, y) {
            return Some(Pos { x: (x + 1) as i32, y: p.y });
        }
        if x - 1 >= i32::MIN as i64 && self.chase_ok(p, x - 1, y) {
            return Some(Pos { x: (x - 1) as i32, y: p.y });
        }
        if y + 1 <= i32::MAX as i64 && self.chase_ok(p, x, y + 1) {
            return Some(Pos { x: p.x, y: (y + 1) as i32 });
        }
        if y - 1 >= i32::MIN as i64 && self.chase_ok(p, x, y - 1) {
            return Some(Pos { x: p.x, y: (y - 1) as i32 });
        }
        None
    }

    fn finish_turn(&mut self)
        requires
            old(self)@.sized(),
            old(self)@.turn < u32::MAX,
            old(self)@.hp > i32::MIN,
        ensures
            final(self)@ == finish_turn(old(self)@),
            final(self)@.sized(),
    {
        self.turn = self.turn + 1;
        let ghost start = self@;
        let n = self.enemies.len();
        let shield = self.has(Module::Shield);
        let mut i: usize = 0;
        let mut done = false;
        while i < n && !done
            invariant
                n == self.enemies@.len(),
                i <= n,
                self@.sized(),
                self@.hp > i32::MIN,
                shield == self@.has(Module::Shield),
                !done ==> enemy_phase(self@, i as int) == enemy_phase(start, 0),
                done ==> self@ == enemy_phase(start, 0),
            decreases n - i,
        {
            let p = self.enemies[i].pos;
            let d = dist(p, self.player);
            if d == 1 {
                if shield && self.energy > 0 {
                    self.energy = self.energy - 1;
                    self.log("shield", "Shield Cell absorbed a sentinel strike (-1 power).");
                } else {
                    self.hp = self.hp - 1;
                    self.log("damage", "A sentinel strikes you for 1 damage.");
                    if self.hp <= 0 {
                        self.hp = 0;
                        self.outcome = Outcome::Dead;
                        self.log("death", "Expedition lost. Start a new signal or reload your save.");
                        done = true;
                    }
                }
            } else if d <= 7 && self.line_clear(p, self.player) {
                match self.chase(p) {
                    Some(q) => {
                        let e = Enemy { pos: q, hp: self.enemies[i].hp };
                        self.enemies.set(i, e);
                    },
                    None => {},
                }
            }
            i = i + 1;
        }
        proof {
            lemma_enemy_phase_frame(start, 0);
        }
        self.update_visibility(7);
    }

    /// Move (or bump a sentinel) by one orthogonal step.
    pub fn step(&mut self, dx: i32, dy: i32)
        requires
            old(self)@.ready(),
        ensures
            final(self)@ == spec_step(old(self)@, dx, dy),
    {
        if self.outcome != Outcome::Exploring {
            return;
        }
        let adx: i64 = if dx < 0 { -(dx as i64) } else { dx as i64 };
        let ady: i64 = if dy < 0 { -(dy as i64) } else { dy as i64 };
        if adx + ady != 1 {
            return;
        }
        let nx: i64 = self.player.x as i64 + dx as i64;
        let ny: i64 = self.player.y as i64 + dy as i64;
        if !(0 <= nx && nx < 44 && 0 <= ny && ny < 28) {
            return;
        }
        let next = Pos { x: nx as i32, y: ny as i32 };
        if !self.floor(next) {
            return;
        }
        self.record(Action::Move(dx, dy));
        let ghost g1 = self@;
        let mut found: Option<usize> = None;
        let mut j: usize = 0;
        while j < self.enemies.len() && found.is_none()
            invariant
                self@ == g1,
                j <= self.enemies@.len(),
                found is None ==> find_enemy(g1.enemies, next, 0) == find_enemy(g1.enemies, next, j as int),
                found matches Some(k) ==> find_enemy(g1.enemies, next, 0) == Some(k as int),
            decreases self.enemies@.len() - j,
        {
            if self.enemies[j].pos == next {
                found = Some(j);
            }
            j = j + 1;
        }
        proof {
            if found is None {
                assert(find_enemy(g1.enemies, next, j as int) is None);
            }
            lemma_find_enemy(g1.enemies, next, 0);
        }
        assert(as_index(found) == find_enemy(g1.enemies, next, 0));
        match found {
            Some(i) => {
                let h = self.enemies[i].hp - 3;
                let e = Enemy { pos: self.enemies[i].pos, hp: h };
                self.enemies.set(i, e);
                self.log("combat", "You hit a sentinel for 3 damage.");
                if h <= 0 {
                    self.enemies.remove(i);
                    self.kills = self.kills + 1;
                    self.log("combat", "Sentinel disabled.");
                    self.shift_standing(Faction::Custodians, -1);
                }
            },
            None => {
                self.player = next;
            },
        }
        self.finish_turn();
    }

    pub fn wait(&mut self)
        requires
            old(self)@.ready(),
        ensures
            final(self)@ == spec_wait(old(self)@),
    {
        if self.outcome == Outcome::Exploring {
            self.record(Action::Wait);
            self.finish_turn();
        }
    }

    /// Use a medkit: up to 10 health, never above 24.
    pub fn heal(&mut self)
        requires
            old(self)@.ready(),
        ensures
            final(self)@ == spec_heal(old(self)@),
    {
        if self.outcome != Outcome::Exploring {
            return;
        }
        if self.medkits == 0 {
            self.log("status", "No medkits remain.");
            return;
        }
        if self.hp == 24 {
            self.log("status", "Health is already full.");
            return;
        }
        self.record(Action::Heal);
        self.medkits = self.medkits - 1;
        self.hp = if self.hp + 10 < 24 { self.hp + 10 } else { 24 };
        self.log("healing", "Used a medkit: restored up to 10 health.");
        self.finish_turn();
    }

    /// A scanner pulse: sight radius 11 until the next action.
    pub fn scan(&mut self)
        requires
            old(self)@.ready(),
        ensures
            final(self)@ == spec_scan(old(self)@),
    {
        if self.outcome != Outcome::Exploring {
            return;
        }
        if !self.has(Module::Scanner) {
            self.log("status", "No Scanner Array fitted. Change your loadout before an expedition.");
            return;
        }
        if self.energy < SCAN_COST {
            self.log("status", "Not enough power for a scanner pulse.");
            return;
        }
        self.record(Action::Scan);
        self.energy = self.energy - SCAN_COST;
        self.log("scan", "Scanner pulse extends sight until your next action. Walls still block it.");
        self.finish_turn();
        self.update_visibility(11);
    }

    /// Ping the nearest unrecovered archive through walls: its surroundings
    /// join the explored map.
    pub fn analyze(&mut self)
        requires
            old(self)@.ready(),
        ensures
            final(self)@ == spec_analyze(old(self)@),
    {
        if self.outcome != Outcome::Exploring {
            return;
        }
        if !self.has(Module::Analyzer) {
            self.log("status", "No Field Analyzer fitted. Change your loadout before an expedition.");
            return;
        }
        if self.energy < ANALYZE_COST {
            self.log("status", "Not enough power for the analyzer (needs 2).");
            return;
        }
        let mut best: Option<usize> = None;
        let mut best_d: i64 = 0;
        let mut j: usize = 0;
        while j < self.archives.len()
            invariant
                j <= self.archives@.len(),
                as_index(best) == nearest(self@.archives, self.player, j as int),
                best matches Some(k) ==> k < j && best_d == manhattan(self.archives@[k as int].pos, self.player),
            decreases self.archives@.len() - j,
        {
            if !self.archives[j].recovered {
                let d = dist(self.archives[j].pos, self.player);
                match best {
                    None => {
                        best = Some(j);
                        best_d = d;
                    },
                    Some(_) => {
                        if d < best_d {
                            best = Some(j);
                            best_d = d;
                        }
                    },
                }
            }
            j = j + 1;
        }
        let k = match best {
            None => {
                self.log("status", "No unrecovered archives remain to analyze.");
                return;
            },
            Some(k) => k,
        };
        let target = self.archives[k].pos;
        let ghost g0 = self@;
        self.record(Action::Analyze);
        self.energy = self.energy - ANALYZE_COST;
        let ghost g1 = self@;
        let tx = target.x as i64;
        let ty = target.y as i64;
        let mut dy: i64 = -1;
        while dy <= 1
            invariant
                -1 <= dy <= 2,
                g1.sized(),
                tx == target.x,
                ty == target.y,
                self.seen@.len() == g1.seen.len(),
                self@ == (GameView { seen: self@.seen, ..g1 }),
                forall|i: int|
                    0 <= i < self.seen@.len() ==> #[trigger] self.seen@[i] == (g1.seen[i] || (0 <= i < CELLS
                        && abs(pos_of(i).x - tx) <= 1 && pos_of(i).y - ty >= -1 && pos_of(i).y - ty < dy)),
            decreases 2 - dy,
        {
            let mut dx: i64 = -1;
            while dx <= 1
                invariant
                    -1 <= dy <= 1,
                    -1 <= dx <= 2,
                    g1.sized(),
                    tx == target.x,
                    ty == target.y,
                    self.seen@.len() == g1.seen.len(),
                    self@ == (GameView { seen: self@.seen, ..g1 }),
                    forall|i: int|
                        0 <= i < self.seen@.len() ==> #[trigger] self.seen@[i] == (g1.seen[i] || (0 <= i
                            < CELLS && ((abs(pos_of(i).x - tx) <= 1 && pos_of(i).y - ty >= -1 && pos_of(i).y
                            - ty < dy) || (pos_of(i).y - ty == dy && pos_of(i).x - tx >= -1 && pos_of(i).x - tx
                            < dx)))),
                decreases 2 - dx,
            {
                let cx = tx + dx;
                let cy = ty + dy;
                if 0 <= cx && cx < 44 && 0 <= cy && cy < 28 {
                    let i = (cy * 44 + cx) as usize;
                    proof {
                        lemma_cell_pos(cx as int, cy as int);
                    }
                    self.seen.set(i, true);
                    proof {
                        assert forall|ii: int| 0 <= ii < self.seen@.len() implies #[trigger] self.seen@[ii] == (
                        g1.seen[ii] || (0 <= ii < CELLS && ((abs(pos_of(ii).x - tx) <= 1 && pos_of(ii).y - ty
                            >= -1 && pos_of(ii).y - ty < dy) || (pos_of(ii).y - ty == dy && pos_of(ii).x - tx
                            >= -1 && pos_of(ii).x - tx < dx + 1)))) by {
                            if ii < CELLS {
                                lemma_pos_cell(ii);
                            }
                        }
                    }
                } else {
                    proof {
                        assert forall|ii: int| 0 <= ii < self.seen@.len() implies #[trigger] self.seen@[ii] == (
                        g1.seen[ii] || (0 <= ii < CELLS && ((abs(pos_of(ii).x - tx) <= 1 && pos_of(ii).y - ty
                            >= -1 && pos_of(ii).y - ty < dy) || (pos_of(ii).y - ty == dy && pos_of(ii).x - tx
                            >= -1 && pos_of(ii).x - tx < dx + 1)))) by {
                            if ii < CELLS {
                                lemma_pos_cell(ii);
                            }
                        }
                    }
                }
                dx = dx + 1;
            }
            dy = dy + 1;
        }
        assert(self@.seen =~= mark_around(g1.seen, target));
        let d = dist(self.player, target);
        let ex = tx - self.player.x as i64;
        let ey = ty - self.player.y as i64;
        let aex = if ex < 0 { -ex } else { ex };
        let aey = if ey < 0 { -ey } else { ey };
        let dir = if aex >= aey {
            if ex >= 0 {
                "east"
            } else {
                "west"
            }
        } else if ey >= 0 {
            "south"
        } else {
            "north"
        };
        let mut msg = owned("Analyzer pinged an archive ");
        push_decimal(&mut msg, d);
        msg.append(" tiles away, to the ");
        msg.append(dir);
        msg.append(". It is now on your map.");
        self.log("analysis", msg.as_str());
        self.finish_turn();
    }

    /// Interact with an adjacent archive, the relay or the lift.
    pub fn interact(&mut self)
        requires
            old(self)@.ready(),
            interact_ok(old(self)@),
        ensures
            final(self)@ == spec_interact(old(self)@),
    {
        if self.outcome != Outcome::Exploring {
            return;
        }
        let mut found: Option<usize> = None;
        let mut j: usize = 0;
        while j < self.archives.len()
            invariant
                j <= self.archives@.len(),
                as_index(found) == adjacent_archive(self@.archives, self.player, j as int),
                found matches Some(k) ==> k < j,
            decreases self.archives@.len() - j,
        {
            if found.is_none() && !self.archives[j].recovered && dist(self.archives[j].pos, self.player) <= 1 {
                found = Some(j);
            }
            j = j + 1;
        }
        if let Some(i) = found {
            self.record(Action::Interact);
            let a = self.archives[i];
            self.archives.set(i, Archive { pos: a.pos, id: a.id, recovered: true });
            let id = a.id;
            self.log("archive", record_text(id));
            if record_author(id) == Faction::Wardens {
                self.shift_standing(Faction::Wardens, 1);
            }
            self.finish_turn();
            return;
        }
        if dist(self.player, self.relay) <= 1 {
            if self.recovered() == 3 && !self.restored {
                self.record(Action::Interact);
                self.restored = true;
                self.log("relay", "Relay restored. Return to the surface lift.");
                self.shift_standing(Faction::Wardens, 1);
                self.shift_standing(Faction::Custodians, 1);
                self.finish_turn();
            } else if !self.restored {
                self.log("status", "Relay needs three recovered archive keys.");
            } else {
                self.log("status", "Relay is online. Return to the surface lift.");
            }
            return;
        }
        if dist(self.player, self.lift) <= 1 {
            if self.restored {
                self.record(Action::Interact);
                self.outcome = Outcome::Escaped;
                self.log("escape", "Signal transmitted. You escaped with the recovered evidence.");
            } else {
                self.log("status", "Restore the relay before departure.");
            }
            return;
        }
        self.log("status", "Nothing to interact with here. Stand beside an archive, relay, or lift.");
    }

    /// Perform a recorded action through the same rules a player uses.
    pub fn apply(&mut self, a: Action)
        requires
            old(self)@.ready(),
            interact_ok(old(self)@),
        ensures
            final(self)@ == spec_apply(old(self)@, a),
    {
        reveal(spec_apply);
        match a {
            Action::Move(dx, dy) => self.step(dx, dy),
            Action::Wait => self.wait(),
            Action::Heal => self.heal(),
            Action::Scan => self.scan(),
            Action::Analyze => self.analyze(),
            Action::Interact => self.interact(),
        }
    }
}

} // verus!
