//! Validation of a whole expedition state, as applied to loaded saves.
use vstd::prelude::*;
use vstd::string::StrSliceExecFns;

use crate::game::{count_recovered, Game, GameView, Outcome, CELLS, MAX_ACTIONS, MAX_CHAT, MAX_EVENTS,
    CHAT_CHARS, SLOTS, START_ENERGY};
use crate::text::{owned, same_text};

verus! {

/// Archive `i` is malformed: unknown record, off the floor, or a repeated id.
pub open spec fn bad_archive(g: GameView, i: int) -> bool {
    let a = g.archives[i];
    ||| a.id >= 3
    ||| (exists|j: int| 0 <= j < i && g.archives[j].id == a.id)
    ||| !g.floor(a.pos)
}

/// Sentinel `i` is malformed: off the floor, on the player, on another
/// sentinel, or with health outside `1..=8`.
pub open spec fn bad_sentinel(g: GameView, i: int) -> bool {
    let e = g.enemies[i];
    ||| !g.floor(e.pos)
    ||| e.pos == g.player
    ||| (exists|j: int| 0 <= j < i && g.enemies[j].pos == e.pos)
    ||| e.hp <= 0
    ||| e.hp > 8
}

/// Conversation entry `i` has an unknown role or overlong content.
pub open spec fn bad_chat(g: GameView, i: int) -> bool {
    let c = g.chat[i];
    ||| !(c.role == "user"@ || c.role == "assistant"@)
    ||| c.content.len() > CHAT_CHARS
}

/// Some module is fitted twice.
pub open spec fn duplicate_module(g: GameView) -> bool {
    exists|i: int, j: int| 0 <= j < i < g.loadout.len() && g.loadout[j] == g.loadout[i]
}

/// The first problem that validation reports, if any.
pub open spec fn validity_error(g: GameView) -> Option<Seq<char>> {
    if g.tiles.len() != CELLS || g.seen.len() != CELLS || g.visible.len() != CELLS {
        Some("Invalid map dimensions"@)
    } else if !g.floor(g.player) || !g.floor(g.lift) || !g.floor(g.relay) {
        Some("Invalid player or landmark"@)
    } else if g.hp < 0 || g.hp > 24 || g.medkits > 3 || g.energy > 6 || g.enemies.len() > 5
        || g.archives.len() != 3 {
        Some("Invalid expedition values"@)
    } else if exists|i: int| 0 <= i < g.archives.len() && bad_archive(g, i) {
        Some("Invalid archive"@)
    } else if exists|i: int| 0 <= i < g.enemies.len() && bad_sentinel(g, i) {
        Some("Invalid sentinel"@)
    } else if g.events.len() > MAX_EVENTS || g.chat.len() > MAX_CHAT || exists|i: int|
        0 <= i < g.chat.len() && bad_chat(g, i) {
        Some("Invalid history"@)
    } else if g.loadout.len() > SLOTS || duplicate_module(g) || g.energy > START_ENERGY || g.actions.len()
        > MAX_ACTIONS || exists|i: int| 0 <= i < 2 && (g.standing[i] < -20 || g.standing[i] > 20) {
        Some("Invalid loadout or trace"@)
    } else if g.restored && count_recovered(g.archives) != 3 {
        Some("Missing relay keys"@)
    } else if (g.outcome == Outcome::Dead) != (g.hp == 0) || (g.outcome == Outcome::Escaped && !g.restored) {
        Some("Inconsistent outcome"@)
    } else {
        None
    }
}

/// A consistent expedition state: what validation accepts.
pub open spec fn valid(g: GameView) -> bool {
    validity_error(g) is None
}

impl Game {
    fn first_bad_archive(&self) -> (b: bool)
        requires
            self@.sized(),
        ensures
            b == exists|i: int| 0 <= i < self@.archives.len() && bad_archive(self@, i),
    {
        let mut i: usize = 0;
        while i < self.archives.len()
            invariant
                self@.sized(),
                i <= self@.archives.len(),
                forall|k: int| 0 <= k < i ==> !bad_archive(self@, k),
            decreases self@.archives.len() - i,
        {
            let a = self.archives[i];
            if a.id >= 3 || !self.floor(a.pos) {
                assert(bad_archive(self@, i as int));
                return true;
            }
            let mut j: usize = 0;
            while j < i
                invariant
                    j <= i < self@.archives.len(),
                    a == self@.archives[i as int],
                    forall|k: int| 0 <= k < j ==> self@.archives[k].id != a.id,
                decreases i - j,
            {
                if self.archives[j].id == a.id {
                    assert(bad_archive(self@, i as int));
                    return true;
                }
                j = j + 1;
            }
            i = i + 1;
        }
        false
    }

    fn first_bad_sentinel(&self) -> (b: bool)
        requires
            self@.sized(),
        ensures
            b == exists|i: int| 0 <= i < self@.enemies.len() && bad_sentinel(self@, i),
    {
        let mut i: usize = 0;
        while i < self.enemies.len()
            invariant
                self@.sized(),
                i <= self@.enemies.len(),
                forall|k: int| 0 <= k < i ==> !bad_sentinel(self@, k),
            decreases self@.enemies.len() - i,
        {
            let e = self.enemies[i];
            if !self.floor(e.pos) || e.pos == self.player || e.hp <= 0 || e.hp > 8 {
                assert(bad_sentinel(self@, i as int));
                return true;
            }
            let mut j: usize = 0;
            while j < i
                invariant
                    j <= i < self@.enemies.len(),
                    e == self@.enemies[i as int],
                    forall|k: int| 0 <= k < j ==> self@.enemies[k].pos != e.pos,
                decreases i - j,
            {
                if self.enemies[j].pos == e.pos {
                    assert(bad_sentinel(self@, i as int));
                    return true;
                }
                j = j + 1;
            }
            i = i + 1;
        }
        false
    }

    fn some_bad_chat(&self) -> (b: bool)
        ensures
            b == exists|i: int| 0 <= i < self@.chat.len() && bad_chat(self@, i),
    {
        let mut i: usize = 0;
        while i < self.chat.len()
            invariant
                i <= self@.chat.len(),
                forall|k: int| 0 <= k < i ==> !bad_chat(self@, k),
            decreases self@.chat.len() - i,
        {
            let c = &self.chat[i];
            let role = c.role.as_str();
            let known_role = same_text(role, "user") || same_text(role, "assistant");
            if !known_role || c.content.as_str().unicode_len() > CHAT_CHARS {
                assert(bad_chat(self@, i as int));
                return true;
            }
            i = i + 1;
        }
        false
    }

    fn has_duplicate_module(&self) -> (b: bool)
        ensures
            b == duplicate_module(self@),
    {
        let mut i: usize = 0;
        while i < self.loadout.len()
            invariant
                i <= self@.loadout.len(),
                forall|a: int, c: int| 0 <= c < a < i ==> self@.loadout[c] != self@.loadout[a],
            decreases self@.loadout.len() - i,
        {
            let mut j: usize = 0;
            while j < i
                invariant
                    j <= i < self@.loadout.len(),
                    forall|c: int| 0 <= c < j ==> self@.loadout[c] != self@.loadout[i as int],
                decreases i - j,
            {
                if self.loadout[j] == self.loadout[i] {
                    return true;
                }
                j = j + 1;
            }
            i = i + 1;
        }
        false
    }

    /// Check that the state is one the rules can produce: map sizes,
    /// positions, record ids, bounded statistics and history, and outcome
    /// consistency. Reports the first problem found.
    pub fn validate(&self) -> (r: Result<(), String>)
        ensures
            match r {
                Ok(()) => validity_error(self@) is None,
                Err(e) => validity_error(self@) == Some(e@),
            },
    {
        if self.tiles.len() != CELLS || self.seen.len() != CELLS || self.visible.len() != CELLS {
            return Err(owned("Invalid map dimensions"));
        }
        if !self.floor(self.player) || !self.floor(self.lift) || !self.floor(self.relay) {
            return Err(owned("Invalid player or landmark"));
        }
        if self.hp < 0 || self.hp > 24 || self.medkits > 3 || self.energy > 6 || self.enemies.len() > 5
            || self.archives.len() != 3 {
            return Err(owned("Invalid expedition values"));
        }
        if self.first_bad_archive() {
            return Err(owned("Invalid archive"));
        }
        if self.first_bad_sentinel() {
            return Err(owned("Invalid sentinel"));
        }
        if self.events.len() > MAX_EVENTS || self.chat.len() > MAX_CHAT || self.some_bad_chat() {
            return Err(owned("Invalid history"));
        }
        let s0 = self.standing[0] as i64;
        let s1 = self.standing[1] as i64;
        let standing_bad = s0 < -20 || s0 > 20 || s1 < -20 || s1 > 20;
        proof {
            assert(standing_bad == exists|i: int|
                0 <= i < 2 && (self@.standing[i] < -20 || self@.standing[i] > 20)) by {
                if standing_bad {
                    if s0 < -20 || s0 > 20 {
                        assert(0 <= 0 < 2 && (self@.standing[0] < -20 || self@.standing[0] > 20));
                    } else {
                        assert(0 <= 1 < 2 && (self@.standing[1] < -20 || self@.standing[1] > 20));
                    }
                }
            }
        }
        if self.loadout.len() > SLOTS || self.has_duplicate_module() || self.energy > START_ENERGY
            || self.actions.len() > MAX_ACTIONS || standing_bad {
            return Err(owned("Invalid loadout or trace"));
        }
        if self.restored && self.recovered() != 3 {
            return Err(owned("Missing relay keys"));
        }
        if (self.outcome == Outcome::Dead) != (self.hp == 0) || (self.outcome == Outcome::Escaped
            && !self.restored) {
            return Err(owned("Inconsistent outcome"));
        }
        Ok(())
    }
}

} // verus!
