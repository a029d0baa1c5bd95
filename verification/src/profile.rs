//! What outlives a run: a bounded history of finished expeditions. It never
//! feeds back into the rules; it is a record, not a progression system.
use vstd::prelude::*;
use vstd::string::StringExecFns;

use crate::advice::spec_rank;
use crate::game::{count_recovered, Game, GameView, Outcome};
use crate::text::{digits, push_digits};

verus! {

/// Seeds from here up are daily signals: seed = DAILY_BASE + days since 1970.
pub const DAILY_BASE: u64 = 20_000_000;

/// Only this many finished runs are remembered, newest last.
pub const MAX_RUNS: usize = 200;

/// One finished expedition.
#[derive(Debug, PartialEq, Eq)]
pub struct Run {
    pub seed: u64,
    /// The day number when this was a daily signal.
    pub daily: Option<u64>,
    pub rank: String,
    pub won: bool,
    pub turns: u32,
    pub kills: u32,
    pub records: usize,
    /// Calendar date, YYYY-MM-DD.
    pub when: String,
}

pub struct RunView {
    pub seed: u64,
    pub daily: Option<u64>,
    pub rank: Seq<char>,
    pub won: bool,
    pub turns: u32,
    pub kills: u32,
    pub records: usize,
    pub when: Seq<char>,
}

impl View for Run {
    type V = RunView;

    open spec fn view(&self) -> RunView {
        RunView {
            seed: self.seed,
            daily: self.daily,
            rank: self.rank@,
            won: self.won,
            turns: self.turns,
            kills: self.kills,
            records: self.records,
            when: self.when@,
        }
    }
}

impl Clone for Run {
    fn clone(&self) -> (r: Self)
        ensures
            r@ == self@,
    {
        Run {
            seed: self.seed,
            daily: self.daily,
            rank: self.rank.clone(),
            won: self.won,
            turns: self.turns,
            kills: self.kills,
            records: self.records,
            when: self.when.clone(),
        }
    }
}

/// The day of a daily-signal seed.
pub open spec fn spec_daily_day(seed: u64) -> Option<u64> {
    if DAILY_BASE <= seed {
        Some((seed - DAILY_BASE) as u64)
    } else {
        None
    }
}

/// The day of a daily-signal seed, `None` for an ordinary seed.
pub fn daily_day(seed: u64) -> (d: Option<u64>)
    ensures
        d == spec_daily_day(seed),
{
    if DAILY_BASE <= seed {
        Some(seed - DAILY_BASE)
    } else {
        None
    }
}

/// The record of a finished expedition `g`, noted on `when`.
pub open spec fn run_of(g: GameView, when: Seq<char>) -> RunView {
    RunView {
        seed: g.seed,
        daily: spec_daily_day(g.seed),
        rank: spec_rank(g),
        won: g.outcome == Outcome::Escaped,
        turns: g.turn,
        kills: g.kills,
        records: if count_recovered(g.archives) < 3 { count_recovered(g.archives) as usize } else { 3 },
        when,
    }
}

/// `s` padded with spaces on the right to at least `n` characters.
pub open spec fn pad_right(s: Seq<char>, n: int) -> Seq<char> {
    if s.len() >= n { s } else { s + Seq::new((n - s.len()) as nat, |i: int| ' ') }
}

/// One history line: date, rank, turns, seed, and a daily mark.
pub open spec fn spec_line(r: RunView) -> Seq<char> {
    r.when + "  "@ + pad_right(r.rank, 16) + "  "@ + digits(r.turns as nat) + " turns  seed "@ + digits(
        r.seed as nat,
    ) + if r.daily is Some { "  daily"@ } else { ""@ }
}

impl Run {
    /// One line for the history screen.
    pub fn line(&self) -> (s: String)
        ensures
            s@ == spec_line(self@),
    {
        proof {
            reveal_strlit("  ");
            reveal_strlit(" ");
            reveal_strlit(" turns  seed ");
            reveal_strlit("  daily");
            reveal_strlit("");
        }
        let mut s = self.when.clone();
        s.append("  ");
        s.append(self.rank.as_str());
        let mut k: usize = self.rank.as_str().unicode_len();
        let ghost base = s@;
        while k < 16
            invariant
                self.rank@.len() <= k <= 16 || (k == self.rank@.len() && k >= 16),
                s@ == base + Seq::new((k - self.rank@.len()) as nat, |i: int| ' '),
            decreases 16 - k,
        {
            proof { reveal_strlit(" "); }
            s.append(" ");
            k = k + 1;
            assert(s@ =~= base + Seq::new((k - self.rank@.len()) as nat, |i: int| ' '));
        }
        proof {
            if self.rank@.len() >= 16 {
                assert(s@ =~= base);
            }
            assert(s@ =~= self.when@ + "  "@ + pad_right(self.rank@, 16));
        }
        let ghost head = s@;
        s.append("  ");
        push_digits(&mut s, self.turns as u64);
        s.append(" turns  seed ");
        push_digits(&mut s, self.seed);
        assert(s@ =~= head + "  "@ + digits(self.turns as nat) + " turns  seed "@ + digits(self.seed as nat));
        let ghost body = s@;
        if self.daily.is_some() {
            s.append("  daily");
            assert(s@ =~= body + "  daily"@);
        } else {
            assert(s@ =~= body + ""@);
        }
        assert(s@ =~= spec_line(self@));
        s
    }
}

/// The finished runs, oldest first.
#[derive(Clone, Debug, PartialEq, Eq)]
pub struct Profile {
    pub runs: Vec<Run>,
}

/// The views of the runs.
pub open spec fn runs_view(v: Seq<Run>) -> Seq<RunView> {
    Seq::new(v.len(), |i: int| v[i]@)
}

/// The newest `n` entries of `s`.
pub open spec fn newest<T>(s: Seq<T>, n: int) -> Seq<T> {
    if s.len() > n { s.skip(s.len() - n) } else { s }
}

/// How many of `s` were won.
pub open spec fn wins_in(s: Seq<RunView>) -> nat
    decreases s.len(),
{
    if s.len() == 0 {
        0
    } else {
        wins_in(s.drop_last()) + if s.last().won { 1nat } else { 0nat }
    }
}

impl Default for Profile {
    fn default() -> (p: Self)
        ensures
            p.runs@.len() == 0,
    {
        Profile { runs: Vec::new() }
    }
}

impl Profile {
    /// Notes a finished run and returns its record; an unfinished run is
    /// not recorded. Only the newest `MAX_RUNS` runs are kept.
    pub fn record(&mut self, g: &Game, when: &str) -> (r: Option<Run>)
        ensures
            g@.outcome == Outcome::Exploring ==> r is None && runs_view(final(self).runs@) == runs_view(
                old(self).runs@,
            ),
            g@.outcome != Outcome::Exploring ==> (r matches Some(run) && run@ == run_of(g@, when@)
                && runs_view(final(self).runs@) == newest(
                runs_view(old(self).runs@).push(run@),
                MAX_RUNS as int,
            )),
            g@.outcome != Outcome::Exploring ==> final(self).runs@.len() <= MAX_RUNS,
    {
        if g.outcome == Outcome::Exploring {
            return None;
        }
        let found = g.recovered();
        let run = Run {
            seed: g.seed,
            daily: daily_day(g.seed),
            rank: String::from_str(g.summary().rank),
            won: g.outcome == Outcome::Escaped,
            turns: g.turn,
            kills: g.kills,
            records: if found < 3 { found } else { 3 },
            when: String::from_str(when),
        };
        let ghost all = runs_view(old(self).runs@).push(run@);
        self.runs.push(run.clone());
        assert(runs_view(self.runs@) =~= all);
        while self.runs.len() > MAX_RUNS
            invariant
                all.len() == old(self).runs@.len() + 1,
                runs_view(self.runs@) == all.skip(all.len() - self.runs@.len()),
                self.runs@.len() <= all.len(),
                self.runs@.len() >= (if all.len() < MAX_RUNS { all.len() } else { MAX_RUNS as nat }),
            decreases self.runs@.len(),
        {
            let ghost before = runs_view(self.runs@);
            let ghost len0 = self.runs@.len();
            self.runs.remove(0);
            assert(runs_view(self.runs@) =~= before.skip(1));
            assert(before.skip(1) =~= all.skip(all.len() - len0 + 1));
        }
        proof {
            if all.len() <= MAX_RUNS {
                assert(all.skip(0) =~= all);
            }
        }
        assert(runs_view(self.runs@) =~= newest(all, MAX_RUNS as int));
        Some(run)
    }

    /// Keeps only the first `MAX_RUNS` runs of a history read from storage.
    pub fn trim_loaded(&mut self)
        ensures
            runs_view(final(self).runs@) == runs_view(old(self).runs@).take(
                if old(self).runs@.len() < MAX_RUNS { old(self).runs@.len() as int } else { MAX_RUNS as int },
            ),
    {
        let ghost all = runs_view(self.runs@);
        while self.runs.len() > MAX_RUNS
            invariant
                runs_view(self.runs@) == all.take(self.runs@.len() as int),
                self.runs@.len() <= all.len(),
                self.runs@.len() >= (if all.len() < MAX_RUNS { all.len() } else { MAX_RUNS as nat }),
            decreases self.runs@.len(),
        {
            let ghost before = runs_view(self.runs@);
            self.runs.pop();
            assert(runs_view(self.runs@) =~= all.take(self.runs@.len() as int));
        }
        assert(all.take(all.len() as int) =~= all);
    }

    /// How many recorded runs were won.
    pub fn wins(&self) -> (n: usize)
        ensures
            n == wins_in(runs_view(self.runs@)),
    {
        let ghost all = runs_view(self.runs@);
        let mut n: usize = 0;
        let mut i: usize = 0;
        while i < self.runs.len()
            invariant
                all == runs_view(self.runs@),
                i <= self.runs@.len(),
                n == wins_in(all.take(i as int)),
                n <= i,
            decreases self.runs@.len() - i,
        {
            proof {
                assert(all.take(i + 1).drop_last() =~= all.take(i as int));
            }
            if self.runs[i].won {
                n = n + 1;
            }
            i = i + 1;
        }
        assert(all.take(i as int) =~= all);
        n
    }
}

} // verus!
