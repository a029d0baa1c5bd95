//! The discovered-state snapshot given to the companion: only what the
//! player has found, seen or been told.
use vstd::prelude::*;

use crate::game::{
    count_recovered, record_text, spec_record, Archive, Enemy, Event, EventView, Faction, Game, GameView, Module,
    Outcome,
};
use crate::geom::Pos;
use crate::route::is_route;

verus! {

/// A sentinel in sight.
#[derive(Clone, Copy, Debug, PartialEq, Eq, Structural)]
pub struct Threat {
    pub position: Pos,
    pub hp: i32,
}

/// An archive whose location is on the explored map.
#[derive(Clone, Copy, Debug, PartialEq, Eq, Structural)]
pub struct Landmark {
    pub position: Pos,
    pub recovered: bool,
}

/// The known route to one landmark, as of a turn.
#[derive(Debug)]
pub struct RouteNote {
    pub target: &'static str,
    pub position: Pos,
    pub steps: Option<usize>,
    pub as_of_turn: u32,
}

/// A faction, what it is, and the player's standing with it.
#[derive(Debug)]
pub struct FactionNote {
    pub name: &'static str,
    pub about: &'static str,
    pub standing: i32,
}

/// Everything the companion may know of the expedition.
#[derive(Debug)]
pub struct Knowledge {
    pub turn: u32,
    pub known_routes: Vec<RouteNote>,
    pub position: Pos,
    pub hp: i32,
    pub medkits: u32,
    pub power: u32,
    pub loadout: Vec<&'static str>,
    pub factions: Vec<FactionNote>,
    pub keys_recovered: usize,
    pub relay_restored: bool,
    pub outcome: Outcome,
    pub discovered_records: Vec<&'static str>,
    pub visible_threats: Vec<Threat>,
    pub known_archives: Vec<Landmark>,
    pub known_lift: Pos,
    pub known_relay: Option<Pos>,
    /// Newest first.
    pub recent_events: Vec<Event>,
}

/// Record texts of the recovered archives, in archive order.
pub open spec fn records_of(a: Seq<Archive>) -> Seq<Seq<char>>
    decreases a.len(),
{
    if a.len() == 0 {
        Seq::empty()
    } else {
        let r = records_of(a.drop_last());
        if a.last().recovered {
            r.push(spec_record(a.last().id as int))
        } else {
            r
        }
    }
}

/// The sentinels among `e` that the player can see.
pub open spec fn threats_of(g: GameView, e: Seq<Enemy>) -> Seq<Threat>
    decreases e.len(),
{
    if e.len() == 0 {
        Seq::empty()
    } else {
        let r = threats_of(g, e.drop_last());
        if g.can_see(e.last().pos) {
            r.push(Threat { position: e.last().pos, hp: e.last().hp })
        } else {
            r
        }
    }
}

/// The archives among `a` whose tile is explored.
pub open spec fn landmarks_of(g: GameView, a: Seq<Archive>) -> Seq<Landmark>
    decreases a.len(),
{
    if a.len() == 0 {
        Seq::empty()
    } else {
        let r = landmarks_of(g, a.drop_last());
        if g.discovered(a.last().pos) {
            r.push(Landmark { position: a.last().pos, recovered: a.last().recovered })
        } else {
            r
        }
    }
}

/// Explored, unrecovered archives: route targets.
pub open spec fn open_archives(g: GameView, a: Seq<Archive>) -> Seq<Pos>
    decreases a.len(),
{
    if a.len() == 0 {
        Seq::empty()
    } else {
        let r = open_archives(g, a.drop_last());
        if !a.last().recovered && g.discovered(a.last().pos) {
            r.push(a.last().pos)
        } else {
            r
        }
    }
}

/// The landmarks a route is computed to: the lift, the relay once explored,
/// then every explored unrecovered archive.
pub open spec fn route_targets(g: GameView) -> Seq<(Seq<char>, Pos)> {
    let first = if g.discovered(g.relay) {
        seq![("lift"@, g.lift), ("relay"@, g.relay)]
    } else {
        seq![("lift"@, g.lift)]
    };
    first + open_archives(g, g.archives).map_values(|p: Pos| ("archive"@, p))
}

/// `steps` is the length of the shortest known route to `t`, or `None`
/// exactly when there is none.
pub open spec fn steps_ok(g: GameView, t: Pos, steps: Option<usize>) -> bool {
    match steps {
        None => !(g.discovered(t) && g.floor(t)) || forall|p: Seq<Pos>| !is_route(g, p, t),
        Some(n) => {
            &&& g.discovered(t)
            &&& g.floor(t)
            &&& exists|p: Seq<Pos>| is_route(g, p, t) && p.len() == n + 1
            &&& forall|p: Seq<Pos>| is_route(g, p, t) ==> n + 1 <= p.len()
        },
    }
}

/// The last ten events, newest first.
pub open spec fn recent(ev: Seq<EventView>) -> Seq<EventView> {
    let n = if ev.len() < 10 { ev.len() as int } else { 10 };
    Seq::new(n as nat, |k: int| ev[ev.len() - 1 - k])
}

/// Every recovered archive holds a known record.
pub open spec fn records_known(g: GameView) -> bool {
    forall|i: int| 0 <= i < g.archives.len() && #[trigger] g.archives[i].recovered ==> g.archives[i].id < 3
}

impl Game {
    fn route_note(&self, target: &'static str, pos: Pos) -> (n: RouteNote)
        requires
            self@.sized(),
        ensures
            n.target == target,
            n.position == pos,
            n.as_of_turn == self.turn,
            steps_ok(self@, pos, n.steps),
    {
        let steps = match self.known_route(pos) {
            Some(r) => {
                proof {
                    assert(is_route(self@, r@, pos) && r@.len() == (r@.len() - 1) + 1);
                }
                Some(r.len() - 1)
            },
            None => None,
        };
        RouteNote { target, position: pos, steps, as_of_turn: self.turn }
    }

    /// The discovered-state snapshot: status, recovered record texts, visible
    /// sentinels, explored archive locations, the lift, the relay only once
    /// explored, known routes, and the ten latest events. Hidden tiles,
    /// sentinels out of sight and unrecovered records never appear.
    pub fn knowledge(&self) -> (k: Knowledge)
        requires
            self@.sized(),
            records_known(self@),
        ensures
            k.turn == self.turn,
            k.position == self.player,
            k.hp == self.hp,
            k.medkits == self.medkits,
            k.power == self.energy,
            k.keys_recovered == count_recovered(self@.archives),
            k.relay_restored == self.restored,
            k.outcome == self.outcome,
            k.known_lift == self.lift,
            k.known_relay == (if self@.discovered(self.relay) { Some(self.relay) } else { None }),
            k.loadout@.map_values(|s: &'static str| s@) == self@.loadout.map_values(|m: Module| m.spec_name()),
            k.factions@.len() == 2,
            k.factions@[0].name@ == Faction::Wardens.spec_name(),
            k.factions@[0].about@ == Faction::Wardens.spec_about(),
            k.factions@[0].standing == self@.standing_of(Faction::Wardens),
            k.factions@[1].name@ == Faction::Custodians.spec_name(),
            k.factions@[1].about@ == Faction::Custodians.spec_about(),
            k.factions@[1].standing == self@.standing_of(Faction::Custodians),
            k.discovered_records@.map_values(|s: &'static str| s@) == records_of(self@.archives),
            k.visible_threats@ == threats_of(self@, self@.enemies),
            k.known_archives@ == landmarks_of(self@, self@.archives),
            k.known_routes@.len() == route_targets(self@).len(),
            forall|i: int|
                0 <= i < k.known_routes@.len() ==> {
                    &&& (#[trigger] k.known_routes@[i]).target@ == route_targets(self@)[i].0
                    &&& k.known_routes@[i].position == route_targets(self@)[i].1
                    &&& k.known_routes@[i].as_of_turn == self.turn
                    &&& steps_ok(self@, k.known_routes@[i].position, k.known_routes@[i].steps)
                },
            k.recent_events@.map_values(|e: Event| e@) == recent(self@.events),
    {
        let ghost g = self@;
        // Recovered records.
        let mut records: Vec<&'static str> = Vec::new();
        let mut i: usize = 0;
        while i < self.archives.len()
            invariant
                g == self@,
                records_known(g),
                i <= g.archives.len(),
                records@.map_values(|s: &'static str| s@) == records_of(g.archives.take(i as int)),
            decreases g.archives.len() - i,
        {
            assert(g.archives.take(i + 1).drop_last() =~= g.archives.take(i as int));
            let a = self.archives[i];
            if a.recovered {
                records.push(record_text(a.id));
            }
            i = i + 1;
            assert(records@.map_values(|s: &'static str| s@) =~= records_of(g.archives.take(i as int)));
        }
        assert(g.archives.take(i as int) =~= g.archives);
        // Sentinels in sight.
        let mut threats: Vec<Threat> = Vec::new();
        let mut i: usize = 0;
        while i < self.enemies.len()
            invariant
                g == self@,
                g.sized(),
                i <= g.enemies.len(),
                threats@ == threats_of(g, g.enemies.take(i as int)),
            decreases g.enemies.len() - i,
        {
            assert(g.enemies.take(i + 1).drop_last() =~= g.enemies.take(i as int));
            let e = self.enemies[i];
            if self.can_see(e.pos) {
                threats.push(Threat { position: e.pos, hp: e.hp });
            }
            i = i + 1;
        }
        assert(g.enemies.take(i as int) =~= g.enemies);
        // Explored archives.
        let mut landmarks: Vec<Landmark> = Vec::new();
        let mut i: usize = 0;
        while i < self.archives.len()
            invariant
                g == self@,
                g.sized(),
                i <= g.archives.len(),
                landmarks@ == landmarks_of(g, g.archives.take(i as int)),
            decreases g.archives.len() - i,
        {
            assert(g.archives.take(i + 1).drop_last() =~= g.archives.take(i as int));
            let a = self.archives[i];
            if self.discovered(a.pos) {
                landmarks.push(Landmark { position: a.pos, recovered: a.recovered });
            }
            i = i + 1;
        }
        assert(g.archives.take(i as int) =~= g.archives);
        // Routes to the lift, the relay once explored, and open archives.
        let mut routes: Vec<RouteNote> = Vec::new();
        routes.push(self.route_note("lift", self.lift));
        let relay_known = self.discovered(self.relay);
        if relay_known {
            routes.push(self.route_note("relay", self.relay));
        }
        let ghost first = if relay_known {
            seq![("lift"@, g.lift), ("relay"@, g.relay)]
        } else {
            seq![("lift"@, g.lift)]
        };
        let ghost base = routes@.len();
        assert(base == first.len());
        let mut i: usize = 0;
        while i < self.archives.len()
            invariant
                g == self@,
                g.sized(),
                i <= g.archives.len(),
                base == first.len(),
                routes@.len() == base + open_archives(g, g.archives.take(i as int)).len(),
                forall|j: int|
                    0 <= j < routes@.len() ==> {
                        let t = (first + open_archives(g, g.archives.take(i as int)).map_values(
                            |p: Pos| ("archive"@, p),
                        ))[j];
                        &&& (#[trigger] routes@[j]).target@ == t.0
                        &&& routes@[j].position == t.1
                        &&& routes@[j].as_of_turn == g.turn
                        &&& steps_ok(g, routes@[j].position, routes@[j].steps)
                    },
            decreases g.archives.len() - i,
        {
            assert(g.archives.take(i + 1).drop_last() =~= g.archives.take(i as int));
            let ghost before = open_archives(g, g.archives.take(i as int));
            let a = self.archives[i];
            if !a.recovered && self.discovered(a.pos) {
                routes.push(self.route_note("archive", a.pos));
            }
            i = i + 1;
            proof {
                let after = open_archives(g, g.archives.take(i as int));
                let s0 = first + before.map_values(|p: Pos| ("archive"@, p));
                let s1 = first + after.map_values(|p: Pos| ("archive"@, p));
                assert forall|j: int| 0 <= j < s0.len() implies s1[j] == s0[j] by {
                    if j >= first.len() {
                        assert(after[j - first.len()] == before[j - first.len()]);
                    }
                }
            }
        }
        assert(g.archives.take(i as int) =~= g.archives);
        // Loadout names and factions.
        let mut names: Vec<&'static str> = Vec::new();
        let mut i: usize = 0;
        while i < self.loadout.len()
            invariant
                g == self@,
                i <= g.loadout.len(),
                names@.map_values(|s: &'static str| s@) == g.loadout.take(i as int).map_values(
                    |m: Module| m.spec_name(),
                ),
            decreases g.loadout.len() - i,
        {
            let ghost old_names = names@;
            assert(old_names.map_values(|s: &'static str| s@).len() == old_names.len());
            assert(old_names.len() == i);
            let nm = self.loadout[i].name();
            names.push(nm);
            i = i + 1;
            assert forall|k: int| 0 <= k < i implies names@.map_values(|s: &'static str| s@)[k]
                == g.loadout.take(i as int).map_values(|m: Module| m.spec_name())[k] && #[trigger] names@[k] == names@[k] by {
                if k < i - 1 {
                    assert(names@[k] == old_names[k]);
                    assert(old_names.map_values(|s: &'static str| s@)[k] == g.loadout.take(i - 1).map_values(
                        |m: Module| m.spec_name(),
                    )[k]);
                }
            }
            assert(names@.map_values(|s: &'static str| s@) =~= g.loadout.take(i as int).map_values(
                |m: Module| m.spec_name(),
            ));
        }
        assert(g.loadout.take(i as int) =~= g.loadout);
        let mut factions: Vec<FactionNote> = Vec::new();
        factions.push(
            FactionNote {
                name: Faction::Wardens.name(),
                about: Faction::Wardens.about(),
                standing: self.standing_of(Faction::Wardens),
            },
        );
        factions.push(
            FactionNote {
                name: Faction::Custodians.name(),
                about: Faction::Custodians.about(),
                standing: self.standing_of(Faction::Custodians),
            },
        );
        // The latest events, newest first.
        let mut events: Vec<Event> = Vec::new();
        let n = self.events.len();
        let take = if n < 10 { n } else { 10 };
        let mut j: usize = 0;
        while j < take
            invariant
                g == self@,
                n == g.events.len(),
                take == (if n < 10 { n } else { 10 }),
                j <= take,
                events@.map_values(|e: Event| e@) == recent(g.events).take(j as int),
            decreases take - j,
        {
            let ghost old_events = events@;
            assert(old_events.map_values(|e: Event| e@).len() == old_events.len());
            assert(old_events.len() == j);
            let e = self.events[n - 1 - j].duplicate();
            assert(e@ == g.events[n - 1 - j]);
            events.push(e);
            j = j + 1;
            assert forall|k: int| 0 <= k < j implies events@.map_values(|e: Event| e@)[k] == recent(g.events).take(
                j as int,
            )[k] && #[trigger] events@[k] == events@[k] by {
                if k < j - 1 {
                    assert(events@[k] == old_events[k]);
                    assert(old_events.map_values(|e: Event| e@)[k] == recent(g.events).take(j - 1)[k]);
                }
            }
            assert(events@.map_values(|e: Event| e@) =~= recent(g.events).take(j as int));
        }
        assert(recent(g.events).take(j as int) =~= recent(g.events));
        Knowledge {
            turn: self.turn,
            known_routes: routes,
            position: self.player,
            hp: self.hp,
            medkits: self.medkits,
            power: self.energy,
            loadout: names,
            factions,
            keys_recovered: self.recovered(),
            relay_restored: self.restored,
            outcome: self.outcome,
            discovered_records: records,
            visible_threats: threats,
            known_archives: landmarks,
            known_lift: self.lift,
            known_relay: if relay_known { Some(self.relay) } else { None },
            recent_events: events,
        }
    }
}

} // verus!
