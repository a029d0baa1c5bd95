//! The expedition's state: the map, the player, sentinels, archives, the
//! relay and the logs, with the mathematical view that the rules speak of.
use vstd::prelude::*;

use crate::geom::Pos;

verus! {

/// Map width in tiles.
pub const WIDTH: i32 = 44;
/// Map height in tiles.
pub const HEIGHT: i32 = 28;
/// Number of tiles on the map.
pub const CELLS: usize = 1232;
/// Scanner power at the start of an expedition.
pub const START_ENERGY: u32 = 6;
/// Power spent by one scanner pulse.
pub const SCAN_COST: u32 = 1;
/// Power spent by one analyzer ping.
pub const ANALYZE_COST: u32 = 2;
/// Length of the action log beyond which a run is no longer replayable.
pub const MAX_ACTIONS: usize = 20000;
/// Number of events kept in the history.
pub const MAX_EVENTS: usize = 2000;
/// Number of conversation entries kept.
pub const MAX_CHAT: usize = 100;
/// Characters kept of one conversation entry.
pub const CHAT_CHARS: usize = 1200;

#[derive(Clone, Copy, Debug, PartialEq, Eq, Structural)]
pub enum Tile {
    Wall,
    Floor,
}

#[derive(Clone, Copy, Debug, PartialEq, Eq, Structural)]
pub struct Enemy {
    pub pos: Pos,
    pub hp: i32,
}

#[derive(Clone, Copy, Debug, PartialEq, Eq, Structural)]
pub struct Archive {
    pub pos: Pos,
    pub id: usize,
    pub recovered: bool,
}

/// Fitted power modules. All of them draw on one shared power pool, so every
/// module you fit is a decision about what to spend it on.
#[derive(Clone, Copy, Debug, PartialEq, Eq, Structural, Hash)]
pub enum Module {
    Scanner,
    Shield,
    Analyzer,
}

/// Number of module slots.
pub const SLOTS: usize = 2;

impl Module {
    pub fn name(self) -> (s: &'static str)
        ensures
            s@ == self.spec_name(),
    {
        match self {
            Module::Scanner => "Scanner Array",
            Module::Shield => "Shield Cell",
            Module::Analyzer => "Field Analyzer",
        }
    }

    pub open spec fn spec_name(self) -> Seq<char> {
        match self {
            Module::Scanner => "Scanner Array"@,
            Module::Shield => "Shield Cell"@,
            Module::Analyzer => "Field Analyzer"@,
        }
    }

    pub fn key_hint(self) -> (s: &'static str)
        ensures
            s@ == (match self {
                Module::Scanner => "F"@,
                Module::Shield => "auto"@,
                Module::Analyzer => "G"@,
            }),
    {
        match self {
            Module::Scanner => "F",
            Module::Shield => "auto",
            Module::Analyzer => "G",
        }
    }

    pub fn effect(self) -> (s: &'static str)
        ensures
            s@ == (match self {
                Module::Scanner => "Sight radius 11 for one turn. Costs 1 power per pulse."@,
                Module::Shield => "Absorbs a sentinel strike. Costs 1 power per hit absorbed."@,
                Module::Analyzer => "Pinpoints the nearest unrecovered archive through walls. Costs 2 power."@,
            }),
    {
        match self {
            Module::Scanner => "Sight radius 11 for one turn. Costs 1 power per pulse.",
            Module::Shield => "Absorbs a sentinel strike. Costs 1 power per hit absorbed.",
            Module::Analyzer => "Pinpoints the nearest unrecovered archive through walls. Costs 2 power.",
        }
    }

    /// Every module, in order.
    pub fn all() -> (v: Vec<Module>)
        ensures
            v@ == seq![Module::Scanner, Module::Shield, Module::Analyzer],
    {
        vec![Module::Scanner, Module::Shield, Module::Analyzer]
    }
}

/// The loadout an expedition starts with unless another is chosen.
pub open spec fn spec_default_loadout() -> Seq<Module> {
    seq![Module::Scanner, Module::Shield]
}

pub fn default_loadout() -> (v: Vec<Module>)
    ensures
        v@ == spec_default_loadout(),
{
    vec![Module::Scanner, Module::Shield]
}

#[derive(Clone, Copy, Debug, PartialEq, Eq, Structural)]
pub enum Faction {
    Wardens,
    Custodians,
}

impl Faction {
    pub open spec fn spec_name(self) -> Seq<char> {
        match self {
            Faction::Wardens => "Wardens"@,
            Faction::Custodians => "Custodians"@,
        }
    }

    /// Position of the faction in `Faction::all()` and in `Game::standing`.
    pub open spec fn slot(self) -> int {
        match self {
            Faction::Wardens => 0,
            Faction::Custodians => 1,
        }
    }

    pub fn name(self) -> (s: &'static str)
        ensures
            s@ == self.spec_name(),
    {
        match self {
            Faction::Wardens => "Wardens",
            Faction::Custodians => "Custodians",
        }
    }

    pub open spec fn spec_about(self) -> Seq<char> {
        match self {
            Faction::Wardens => "The complex's human crew, who evacuated through the surface lift and kept the archives."@,
            Faction::Custodians => "The complex's automated security. Sentinels are theirs, and they still guard the relay."@,
        }
    }

    pub fn about(self) -> (s: &'static str)
        ensures
            s@ == self.spec_about(),
    {
        match self {
            Faction::Wardens => "The complex's human crew, who evacuated through the surface lift and kept the archives.",
            Faction::Custodians => "The complex's automated security. Sentinels are theirs, and they still guard the relay.",
        }
    }

    /// Both factions, in the order of `Game::standing`.
    pub fn all() -> (v: Vec<Faction>)
        ensures
            v@ == seq![Faction::Wardens, Faction::Custodians],
    {
        vec![Faction::Wardens, Faction::Custodians]
    }
}

/// The text of archive record `id`.
pub open spec fn spec_record(id: int) -> Seq<char> {
    if id == 0 {
        "Maintenance 04: The relay failed after coolant was diverted to the sealed lower levels."@
    } else if id == 1 {
        "Evacuation 11: Survivors left through the surface lift. Their destination was North Station."@
    } else {
        "Operator 19: Restore the relay using all three archive keys, then return to the surface lift."@
    }
}

pub fn record_text(id: usize) -> (s: &'static str)
    requires
        id < 3,
    ensures
        s@ == spec_record(id as int),
{
    if id == 0 {
        "Maintenance 04: The relay failed after coolant was diverted to the sealed lower levels."
    } else if id == 1 {
        "Evacuation 11: Survivors left through the surface lift. Their destination was North Station."
    } else {
        "Operator 19: Restore the relay using all three archive keys, then return to the surface lift."
    }
}

/// Which faction authored each archive record.
pub open spec fn spec_record_author(id: int) -> Faction {
    if id == 0 {
        Faction::Custodians
    } else {
        Faction::Wardens
    }
}

pub fn record_author(id: usize) -> (f: Faction)
    requires
        id < 3,
    ensures
        f == spec_record_author(id as int),
{
    if id == 0 {
        Faction::Custodians
    } else {
        Faction::Wardens
    }
}

/// A player action. The ordered list of these plus the seed and loadout is
/// enough to replay a whole expedition.
#[derive(Clone, Copy, Debug, PartialEq, Eq, Structural)]
pub enum Action {
    Move(i32, i32),
    Wait,
    Heal,
    Scan,
    Analyze,
    Interact,
}

#[derive(Clone, Debug)]
pub struct Summary {
    pub rank: &'static str,
    pub lines: Vec<String>,
}

#[derive(Clone, Copy, Debug, PartialEq, Eq, Structural)]
pub enum Outcome {
    Exploring,
    Escaped,
    Dead,
}

#[derive(Clone, Debug)]
pub struct Event {
    pub turn: u32,
    pub kind: String,
    pub text: String,
}

pub struct EventView {
    pub turn: u32,
    pub kind: Seq<char>,
    pub text: Seq<char>,
}

impl View for Event {
    type V = EventView;

    open spec fn view(&self) -> EventView {
        EventView { turn: self.turn, kind: self.kind@, text: self.text@ }
    }
}

impl Event {
    /// A copy of the event.
    pub fn duplicate(&self) -> (e: Event)
        ensures
            e@ == self@,
    {
        Event { turn: self.turn, kind: self.kind.clone(), text: self.text.clone() }
    }
}

#[derive(Clone, Debug)]
pub struct Chat {
    pub role: String,
    pub content: String,
}

pub struct ChatView {
    pub role: Seq<char>,
    pub content: Seq<char>,
}

impl View for Chat {
    type V = ChatView;

    open spec fn view(&self) -> ChatView {
        ChatView { role: self.role@, content: self.content@ }
    }
}

#[derive(Clone, Debug)]
pub struct Game {
    pub seed: u64,
    pub tiles: Vec<Tile>,
    pub seen: Vec<bool>,
    pub visible: Vec<bool>,
    pub player: Pos,
    pub lift: Pos,
    pub relay: Pos,
    pub enemies: Vec<Enemy>,
    pub archives: Vec<Archive>,
    pub hp: i32,
    pub medkits: u32,
    pub energy: u32,
    pub turn: u32,
    pub restored: bool,
    pub outcome: Outcome,
    pub events: Vec<Event>,
    pub chat: Vec<Chat>,
    pub loadout: Vec<Module>,
    pub actions: Vec<Action>,
    /// True while `actions` is a complete record of the run (false if it
    /// overflowed).
    pub replayable: bool,
    pub kills: u32,
    /// Standing with `Faction::all()`, in the same order.
    pub standing: [i32; 2],
}

/// The mathematical state of an expedition.
pub struct GameView {
    pub seed: u64,
    pub tiles: Seq<Tile>,
    pub seen: Seq<bool>,
    pub visible: Seq<bool>,
    pub player: Pos,
    pub lift: Pos,
    pub relay: Pos,
    pub enemies: Seq<Enemy>,
    pub archives: Seq<Archive>,
    pub hp: i32,
    pub medkits: u32,
    pub energy: u32,
    pub turn: u32,
    pub restored: bool,
    pub outcome: Outcome,
    pub events: Seq<EventView>,
    pub chat: Seq<ChatView>,
    pub loadout: Seq<Module>,
    pub actions: Seq<Action>,
    pub replayable: bool,
    pub kills: u32,
    pub standing: Seq<i32>,
}

impl View for Game {
    type V = GameView;

    open spec fn view(&self) -> GameView {
        GameView {
            seed: self.seed,
            tiles: self.tiles@,
            seen: self.seen@,
            visible: self.visible@,
            player: self.player,
            lift: self.lift,
            relay: self.relay,
            enemies: self.enemies@,
            archives: self.archives@,
            hp: self.hp,
            medkits: self.medkits,
            energy: self.energy,
            turn: self.turn,
            restored: self.restored,
            outcome: self.outcome,
            events: self.events@.map_values(|e: Event| e@),
            chat: self.chat@.map_values(|c: Chat| c@),
            loadout: self.loadout@,
            actions: self.actions@,
            replayable: self.replayable,
            kills: self.kills,
            standing: self.standing@,
        }
    }
}

/// True when `(x, y)` lies on the map.
pub open spec fn in_grid(x: int, y: int) -> bool {
    0 <= x < WIDTH && 0 <= y < HEIGHT
}

/// The tile index of `(x, y)`.
pub open spec fn cell(x: int, y: int) -> int {
    y * WIDTH + x
}

/// The position of tile index `i`.
pub open spec fn pos_of(i: int) -> Pos {
    Pos { x: (i % (WIDTH as int)) as i32, y: (i / (WIDTH as int)) as i32 }
}

pub open spec fn in_map(p: Pos) -> bool {
    in_grid(p.x as int, p.y as int)
}

/// True when `(x, y)` is a floor tile of `tiles`.
pub open spec fn floor_in(tiles: Seq<Tile>, x: int, y: int) -> bool {
    in_grid(x, y) && tiles[cell(x, y)] == Tile::Floor
}

/// Tile index and coordinates agree on the map.
pub proof fn lemma_cell_pos(x: int, y: int)
    requires
        in_grid(x, y),
    ensures
        0 <= cell(x, y) < CELLS,
        pos_of(cell(x, y)).x == x,
        pos_of(cell(x, y)).y == y,
{
    assert((y * 44 + x) % 44 == x && (y * 44 + x) / 44 == y) by (nonlinear_arith)
        requires
            0 <= x < 44,
            0 <= y < 28,
    ;
}

/// Every tile index names a position on the map.
pub proof fn lemma_pos_cell(i: int)
    requires
        0 <= i < CELLS,
    ensures
        in_map(pos_of(i)),
        cell(pos_of(i).x as int, pos_of(i).y as int) == i,
{
    assert(0 <= i % 44 < 44 && 0 <= i / 44 < 28 && (i / 44) * 44 + i % 44 == i) by (nonlinear_arith)
        requires
            0 <= i < 1232,
    ;
}

impl GameView {
    /// The three tile layers cover the map.
    pub open spec fn sized(self) -> bool {
        &&& self.tiles.len() >= CELLS
        &&& self.seen.len() >= CELLS
        &&& self.visible.len() >= CELLS
    }

    pub open spec fn floor_at(self, x: int, y: int) -> bool {
        floor_in(self.tiles, x, y)
    }

    pub open spec fn floor(self, p: Pos) -> bool {
        self.floor_at(p.x as int, p.y as int)
    }

    pub open spec fn can_see(self, p: Pos) -> bool {
        in_map(p) && self.visible[cell(p.x as int, p.y as int)]
    }

    pub open spec fn discovered(self, p: Pos) -> bool {
        in_map(p) && self.seen[cell(p.x as int, p.y as int)]
    }

    pub open spec fn has(self, m: Module) -> bool {
        self.loadout.contains(m)
    }

    pub open spec fn standing_of(self, f: Faction) -> i32 {
        self.standing[f.slot()]
    }

    /// Integer counters are far enough from their machine limits that no
    /// single action overflows them.
    pub open spec fn counters_ok(self) -> bool {
        &&& self.turn < u32::MAX
        &&& self.kills < u32::MAX
        &&& i32::MIN < self.hp <= i32::MAX - 10
        &&& forall|i: int| 0 <= i < self.enemies.len() ==> #[trigger] self.enemies[i].hp >= i32::MIN + 3
        &&& forall|i: int| 0 <= i < 2 ==> i32::MIN < #[trigger] self.standing[i] < i32::MAX
    }

    /// What every action needs of the state: a full map and counters within
    /// machine limits.
    pub open spec fn ready(self) -> bool {
        self.sized() && self.counters_ok() && self.standing.len() == 2
    }
}

/// Number of recovered archives in `a`.
pub open spec fn count_recovered(a: Seq<Archive>) -> nat
    decreases a.len(),
{
    if a.len() == 0 {
        0
    } else {
        count_recovered(a.drop_last()) + if a.last().recovered { 1nat } else { 0nat }
    }
}

impl Game {
    /// The tile index of `p`, or `None` off the map.
    pub fn index(p: Pos) -> (r: Option<usize>)
        ensures
            r == (if in_map(p) { Some(cell(p.x as int, p.y as int) as usize) } else { None }),
            r matches Some(i) ==> i < CELLS,
    {
        if p.x >= 0 && p.y >= 0 && p.x < WIDTH && p.y < HEIGHT {
            Some((p.y * WIDTH + p.x) as usize)
        } else {
            None
        }
    }

    pub fn floor(&self, p: Pos) -> (b: bool)
        requires
            self.tiles@.len() >= CELLS,
        ensures
            b == self@.floor(p),
    {
        match Self::index(p) {
            Some(i) => self.tiles[i] == Tile::Floor,
            None => false,
        }
    }

    pub fn can_see(&self, p: Pos) -> (b: bool)
        requires
            self.visible@.len() >= CELLS,
        ensures
            b == self@.can_see(p),
    {
        match Self::index(p) {
            Some(i) => self.visible[i],
            None => false,
        }
    }

    pub fn discovered(&self, p: Pos) -> (b: bool)
        requires
            self.seen@.len() >= CELLS,
        ensures
            b == self@.discovered(p),
    {
        match Self::index(p) {
            Some(i) => self.seen[i],
            None => false,
        }
    }

    /// Number of recovered archives.
    pub fn recovered(&self) -> (n: usize)
        ensures
            n == count_recovered(self.archives@),
    {
        let mut n: usize = 0;
        let mut i: usize = 0;
        while i < self.archives.len()
            invariant
                i <= self.archives@.len(),
                n == count_recovered(self.archives@.take(i as int)),
                n <= i,
            decreases self.archives@.len() - i,
        {
            assert(self.archives@.take(i + 1).drop_last() =~= self.archives@.take(i as int));
            if self.archives[i].recovered {
                n = n + 1;
            }
            i = i + 1;
        }
        assert(self.archives@.take(i as int) =~= self.archives@);
        n
    }

    pub fn has(&self, m: Module) -> (b: bool)
        ensures
            b == self@.has(m),
    {
        let mut i: usize = 0;
        while i < self.loadout.len()
            invariant
                i <= self.loadout@.len(),
                forall|j: int| 0 <= j < i ==> self.loadout@[j] != m,
            decreases self.loadout@.len() - i,
        {
            if self.loadout[i] == m {
                assert(self.loadout@[i as int] == m);
                return true;
            }
            i = i + 1;
        }
        false
    }

    pub fn standing_of(&self, f: Faction) -> (s: i32)
        ensures
            s == self@.standing_of(f),
    {
        match f {
            Faction::Wardens => self.standing[0],
            Faction::Custodians => self.standing[1],
        }
    }
}

} // verus!
