//! What the game tells the player: onboarding hints and the end-of-run
//! summary.
use vstd::prelude::*;
use vstd::string::StringExecFns;

use crate::game::{count_recovered, Faction, Game, GameView, Outcome, Summary};
use crate::geom::manhattan;
use crate::rules::dist;
use crate::text::{decimal, owned, push_digits, push_signed, signed};

verus! {

/// A string option as its characters.
pub open spec fn text_of(o: Option<&'static str>) -> Option<Seq<char>> {
    match o {
        Some(s) => Some(s@),
        None => None,
    }
}

/// The onboarding tip for the current situation, derived purely from state.
pub open spec fn spec_hint(g: GameView) -> Option<Seq<char>> {
    if g.outcome != Outcome::Exploring {
        None
    } else if g.turn == 0 {
        Some("Move with WASD or the arrows. J opens your evidence, Esc the menu."@)
    } else if exists|i: int| 0 <= i < g.enemies.len() && manhattan(g.enemies[i].pos, g.player) == 1 {
        Some("A sentinel is adjacent: bump into it to strike for 3. It hits back for 1."@)
    } else if g.hp <= 10 && g.medkits > 0 {
        Some("Health is low: press H to use a medkit (+10 HP, costs a turn)."@)
    } else if exists|i: int| 0 <= i < g.enemies.len() && g.can_see(g.enemies[i].pos) {
        Some("Sentinel in sight (S). Let it come to you in a corridor, then strike first."@)
    } else if exists|i: int|
        0 <= i < g.archives.len() && !g.archives[i].recovered && manhattan(g.archives[i].pos, g.player) <= 1 {
        Some("Press E beside an archive (A) to recover its record."@)
    } else if count_recovered(g.archives) == 3 && !g.restored {
        if manhattan(g.relay, g.player) <= 1 {
            Some("Press E at the relay (R) to restore it."@)
        } else {
            Some("All three keys recovered. Head for the relay (R)."@)
        }
    } else if g.restored {
        Some("Relay online. Return to the lift (L) and press E to transmit."@)
    } else if count_recovered(g.archives) == 0 && g.turn < 25 {
        Some("Explore to find archives (A). Scan (F) or analyze (G) if fitted; each costs power."@)
    } else {
        None
    }
}

/// The run's rank.
pub open spec fn spec_rank(g: GameView) -> Seq<char> {
    match g.outcome {
        Outcome::Dead => "Lost Signal"@,
        Outcome::Exploring => "Expedition in progress"@,
        Outcome::Escaped => if g.kills == 0 {
            "Silent Signal"@
        } else if g.kills >= 4 {
            "Custodian's Bane"@
        } else if g.standing_of(Faction::Wardens) >= 3 {
            "Warden's Friend"@
        } else {
            "Signal Bearer"@
        },
    }
}

pub open spec fn spec_epilogue(g: GameView) -> Seq<char> {
    match g.outcome {
        Outcome::Escaped => if g.standing_of(Faction::Custodians) >= 1 {
            "The Custodians let the signal pass and stand down."@
        } else {
            "The Wardens receive the signal. The Custodians will remember the sentinels you broke."@
        },
        Outcome::Dead => "The relay stays dark. The Wardens' last message goes unanswered."@,
        Outcome::Exploring => ""@,
    }
}

/// The four recap lines of a summary.
pub open spec fn spec_summary_lines(g: GameView) -> Seq<Seq<char>> {
    seq![
        "Turns "@ + decimal(g.turn as int) + "   Sentinels disabled "@ + decimal(g.kills as int),
        "Archives "@ + decimal(count_recovered(g.archives) as int) + "/3   Power left "@ + decimal(g.energy as int),
        "Wardens "@ + signed(g.standing_of(Faction::Wardens) as int) + "   Custodians "@ + signed(
            g.standing_of(Faction::Custodians) as int,
        ),
        spec_epilogue(g),
    ]
}

impl Game {
    fn some_enemy_adjacent(&self) -> (b: bool)
        ensures
            b == exists|i: int| 0 <= i < self@.enemies.len() && manhattan(self@.enemies[i].pos, self@.player) == 1,
    {
        let mut i: usize = 0;
        while i < self.enemies.len()
            invariant
                i <= self@.enemies.len(),
                forall|k: int| 0 <= k < i ==> manhattan(self@.enemies[k].pos, self@.player) != 1,
            decreases self@.enemies.len() - i,
        {
            if dist(self.enemies[i].pos, self.player) == 1 {
                return true;
            }
            i = i + 1;
        }
        false
    }

    fn some_enemy_visible(&self) -> (b: bool)
        requires
            self@.sized(),
        ensures
            b == exists|i: int| 0 <= i < self@.enemies.len() && self@.can_see(self@.enemies[i].pos),
    {
        let mut i: usize = 0;
        while i < self.enemies.len()
            invariant
                self@.sized(),
                i <= self@.enemies.len(),
                forall|k: int| 0 <= k < i ==> !self@.can_see(self@.enemies[k].pos),
            decreases self@.enemies.len() - i,
        {
            if self.can_see(self.enemies[i].pos) {
                return true;
            }
            i = i + 1;
        }
        false
    }

    fn archive_at_hand(&self) -> (b: bool)
        ensures
            b == exists|i: int|
                0 <= i < self@.archives.len() && !self@.archives[i].recovered && manhattan(
                    self@.archives[i].pos,
                    self@.player,
                ) <= 1,
    {
        let mut i: usize = 0;
        while i < self.archives.len()
            invariant
                i <= self@.archives.len(),
                forall|k: int|
                    0 <= k < i ==> !(!self@.archives[k].recovered && manhattan(self@.archives[k].pos, self@.player)
                        <= 1),
            decreases self@.archives.len() - i,
        {
            if !self.archives[i].recovered && dist(self.archives[i].pos, self.player) <= 1 {
                return true;
            }
            i = i + 1;
        }
        false
    }

    /// Context-sensitive onboarding tip, derived purely from state so it needs
    /// no saved flags and can never disagree with the game.
    pub fn hint(&self) -> (h: Option<&'static str>)
        requires
            self@.sized(),
        ensures
            text_of(h) == spec_hint(self@),
    {
        if self.outcome != Outcome::Exploring {
            return None;
        }
        if self.turn == 0 {
            return Some("Move with WASD or the arrows. J opens your evidence, Esc the menu.");
        }
        if self.some_enemy_adjacent() {
            return Some("A sentinel is adjacent: bump into it to strike for 3. It hits back for 1.");
        }
        if self.hp <= 10 && self.medkits > 0 {
            return Some("Health is low: press H to use a medkit (+10 HP, costs a turn).");
        }
        if self.some_enemy_visible() {
            return Some("Sentinel in sight (S). Let it come to you in a corridor, then strike first.");
        }
        if self.archive_at_hand() {
            return Some("Press E beside an archive (A) to recover its record.");
        }
        let n = self.recovered();
        if n == 3 && !self.restored {
            return Some(
                if dist(self.relay, self.player) <= 1 {
                    "Press E at the relay (R) to restore it."
                } else {
                    "All three keys recovered. Head for the relay (R)."
                },
            );
        }
        if self.restored {
            return Some("Relay online. Return to the lift (L) and press E to transmit.");
        }
        if n == 0 && self.turn < 25 {
            return Some("Explore to find archives (A). Scan (F) or analyze (G) if fitted; each costs power.");
        }
        None
    }

    /// The rank and recap of the run.
    pub fn summary(&self) -> (s: Summary)
        ensures
            s.rank@ == spec_rank(self@),
            s.lines@.map_values(|l: String| l@) == spec_summary_lines(self@),
    {
        let wardens = self.standing_of(Faction::Wardens);
        let custodians = self.standing_of(Faction::Custodians);
        let rank = match self.outcome {
            Outcome::Dead => "Lost Signal",
            Outcome::Exploring => "Expedition in progress",
            Outcome::Escaped => if self.kills == 0 {
                "Silent Signal"
            } else if self.kills >= 4 {
                "Custodian's Bane"
            } else if wardens >= 3 {
                "Warden's Friend"
            } else {
                "Signal Bearer"
            },
        };
        let epilogue = match self.outcome {
            Outcome::Escaped => if custodians >= 1 {
                "The Custodians let the signal pass and stand down."
            } else {
                "The Wardens receive the signal. The Custodians will remember the sentinels you broke."
            },
            Outcome::Dead => "The relay stays dark. The Wardens' last message goes unanswered.",
            Outcome::Exploring => "",
        };
        let mut l1 = owned("Turns ");
        push_digits(&mut l1, self.turn as u64);
        l1.append("   Sentinels disabled ");
        push_digits(&mut l1, self.kills as u64);
        let mut l2 = owned("Archives ");
        push_digits(&mut l2, self.recovered() as u64);
        l2.append("/3   Power left ");
        push_digits(&mut l2, self.energy as u64);
        let mut l3 = owned("Wardens ");
        push_signed(&mut l3, wardens as i64);
        l3.append("   Custodians ");
        push_signed(&mut l3, custodians as i64);
        let l4 = owned(epilogue);
        let mut lines: Vec<String> = Vec::new();
        lines.push(l1);
        lines.push(l2);
        lines.push(l3);
        lines.push(l4);
        assert(lines@.map_values(|l: String| l@) =~= spec_summary_lines(self@));
        Summary { rank, lines }
    }
}

} // verus!
