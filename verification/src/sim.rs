//! The state of one sector, as far as it is decided in whole numbers.
//!
//! Every order of a player is written to a journal under the tick at which it applies, and the tick
//! counter moves on. Who is aboard and what they buy and mount is settled at once. Motion and combat
//! follow from the journal; where ships are and how they fare is reported back into the roster. Two sectors with the same journal are in
//! the same state, which is what replicas compare.
use vstd::prelude::*;
use vstd::string::*;

use crate::hash::{fnv64, fnv64_from, FNV64_BASIS};
use crate::order::{views, SortedMap};
use crate::shard::SectorId;
use crate::tech::{armed, bought};
use crate::wire::{text_of, BeamView, BulletView, DebrisView, ExplosionView, LootView, RockCell};

verus! {

/// The side of a sector in world units.
pub const SECTOR_SIZE: i32 = 9000;

/// Half the side of the box around a ship.
pub const SHIP_R: i32 = 14;

/// The side of a cell of rock.
pub const ROCK_CELL: i32 = 120;

/// What a ship is for.
#[derive(Debug, Clone, Copy, PartialEq, Eq, Structural)]
pub enum ShipRole {
    Player,
    Drone,
    Fighter,
    Hauler,
}

/// What a fleet is told to do.
#[derive(Debug, Clone, Copy, PartialEq, Eq, Structural)]
pub enum FactionCommand {
    Defend,
    Follow,
    Mine,
    Hold,
    AttackNearest,
    AttackMove { x: i32, y: i32 },
}

/// Where a ship is and how it fares.
#[derive(Debug, Clone, Copy, PartialEq, Eq, Structural)]
pub struct Body {
    pub x: i32,
    pub y: i32,
    /// Heading in hundredths of a radian.
    pub a: i32,
    pub hp: i32,
    pub max_hp: i32,
    pub shield: i32,
    pub max_shield: i32,
    pub energy: i32,
    pub max_energy: i32,
    pub minerals: u32,
    pub kills: u32,
    pub guns: u32,
    pub role: ShipRole,
    pub alive: bool,
}

/// A ship of the roster.
#[derive(Debug, PartialEq)]
pub struct Ship {
    pub name: String,
    pub hue: u32,
    pub body: Body,
    /// Ticks that each effect still lasts, by the code of the effect.
    pub effects: Vec<u32>,
    pub weapon: String,
    pub weapons: Vec<String>,
    /// The nodes of the tech tree that were bought.
    pub tech: Vec<String>,
    /// The player whose fleet the ship belongs to; none for a player's own ship.
    pub owner: Option<String>,
    /// The last action that was applied in sequence.
    pub input_ack: u64,
    /// The last flight input that was accepted.
    pub last_input_seq: u64,
}

/// A ship with texts in place of strings.
#[verifier::ext_equal]
pub struct ShipModel {
    pub name: Seq<char>,
    pub hue: u32,
    pub body: Body,
    pub effects: Seq<u32>,
    pub weapon: Seq<char>,
    pub weapons: Seq<Seq<char>>,
    pub tech: Seq<Seq<char>>,
    pub owner: Option<Seq<char>>,
    pub input_ack: u64,
    pub last_input_seq: u64,
}

impl View for Ship {
    type V = ShipModel;

    open spec fn view(&self) -> ShipModel {
        ShipModel {
            name: self.name@,
            hue: self.hue,
            body: self.body,
            effects: self.effects@,
            weapon: self.weapon@,
            weapons: views(self.weapons@),
            tech: views(self.tech@),
            owner: text_of(self.owner),
            input_ack: self.input_ack,
            last_input_seq: self.last_input_seq,
        }
    }
}

/// The body of a ship that has just been launched in the middle of its sector.
pub open spec fn launched() -> Body {
    Body {
        x: 4500,
        y: 4500,
        a: 0,
        hp: 100,
        max_hp: 100,
        shield: 0,
        max_shield: 0,
        energy: 100,
        max_energy: 100,
        minerals: 0,
        kills: 0,
        guns: 1,
        role: ShipRole::Player,
        alive: true,
    }
}

/// A player's ship at its launch.
pub open spec fn new_ship(name: Seq<char>, hue: u32) -> ShipModel {
    ShipModel {
        name,
        hue,
        body: launched(),
        effects: Seq::empty(),
        weapon: Seq::empty(),
        weapons: Seq::empty(),
        tech: Seq::empty(),
        owner: None,
        input_ack: 0,
        last_input_seq: 0,
    }
}

impl Ship {
    /// A player's ship at its launch.
    pub fn launch(name: String, hue: u32) -> (s: Ship)
        ensures
            s@ == new_ship(name@, hue),
    {
        let s = Ship {
            name,
            hue,
            body: Body {
                x: 4500,
                y: 4500,
                a: 0,
                hp: 100,
                max_hp: 100,
                shield: 0,
                max_shield: 0,
                energy: 100,
                max_energy: 100,
                minerals: 0,
                kills: 0,
                guns: 1,
                role: ShipRole::Player,
                alive: true,
            },
            effects: Vec::new(),
            weapon: String::new(),
            weapons: Vec::new(),
            tech: Vec::new(),
            owner: None,
            input_ack: 0,
            last_input_seq: 0,
        };
        assert(s@ =~= new_ship(name@, hue));
        s
    }
}

/// An order to the simulation.
#[derive(Debug, PartialEq)]
#[allow(inconsistent_fields)]
pub enum Order {
    Join { id: String, name: String, hue: u32 },
    Intent {
        id: String,
        thrust: bool,
        turn: i32,
        fire: bool,
        aim: Option<i32>,
        name: Option<String>,
        hue: u32,
    },
    BuyTech { id: String, node: String },
    SelectWeapon { id: String, weapon: String },
    Command { id: String, command: FactionCommand },
    Respawn { id: String },
    Leave { id: String },
}

/// An order with texts in place of strings.
#[allow(inconsistent_fields)]
pub enum OrderView {
    Join { id: Seq<char>, name: Seq<char>, hue: u32 },
    Intent {
        id: Seq<char>,
        thrust: bool,
        turn: i32,
        fire: bool,
        aim: Option<i32>,
        name: Option<Seq<char>>,
        hue: u32,
    },
    BuyTech { id: Seq<char>, node: Seq<char> },
    SelectWeapon { id: Seq<char>, weapon: Seq<char> },
    Command { id: Seq<char>, command: FactionCommand },
    Respawn { id: Seq<char> },
    Leave { id: Seq<char> },
}

impl View for Order {
    type V = OrderView;

    open spec fn view(&self) -> OrderView {
        match *self {
            Order::Join { id, name, hue } => OrderView::Join { id: id@, name: name@, hue },
            Order::Intent { id, thrust, turn, fire, aim, name, hue } => OrderView::Intent {
                id: id@,
                thrust,
                turn,
                fire,
                aim,
                name: text_of(name),
                hue,
            },
            Order::BuyTech { id, node } => OrderView::BuyTech { id: id@, node: node@ },
            Order::SelectWeapon { id, weapon } => OrderView::SelectWeapon {
                id: id@,
                weapon: weapon@,
            },
            Order::Command { id, command } => OrderView::Command { id: id@, command },
            Order::Respawn { id } => OrderView::Respawn { id: id@ },
            Order::Leave { id } => OrderView::Leave { id: id@ },
        }
    }
}

/// An order and the tick at which it applies.
#[derive(Debug, PartialEq)]
pub struct Entry {
    pub tick: u64,
    pub order: Order,
}

pub struct EntryView {
    pub tick: u64,
    pub order: OrderView,
}

impl View for Entry {
    type V = EntryView;

    open spec fn view(&self) -> EntryView {
        EntryView { tick: self.tick, order: self.order@ }
    }
}

/// A ship on its way into a neighbouring sector, its position already in that sector's coordinates.
#[derive(Debug, PartialEq)]
pub struct Transit {
    pub to: SectorId,
    pub id: String,
    pub ship: Ship,
}

pub struct TransitView {
    pub to: SectorId,
    pub id: Seq<char>,
    pub ship: ShipModel,
}

impl View for Transit {
    type V = TransitView;

    open spec fn view(&self) -> TransitView {
        TransitView { to: self.to, id: self.id@, ship: self.ship@ }
    }
}

/// A power-up that floats in the sector.
#[derive(Debug, Clone, Copy, PartialEq, Eq, Structural)]
pub struct Pickup {
    pub x: i32,
    pub y: i32,
    pub kind: u8,
}

/// The economy of a player.
#[derive(Debug, PartialEq)]
pub struct Faction {
    pub owner: String,
    pub minerals: u32,
    pub energy: u32,
    pub alloys: u32,
    pub buildings: u32,
    pub drones: u32,
    pub fighters: u32,
    pub haulers: u32,
    pub power: i64,
    pub command: FactionCommand,
}

#[derive(Debug, PartialEq)]
pub struct Kill {
    pub killer: String,
    pub victim: String,
}

/// What moves through a sector besides ships, as it was last reported.
pub struct Scene {
    pub bullets: Vec<BulletView>,
    pub beams: Vec<BeamView>,
    pub explosions: Vec<ExplosionView>,
    pub debris: Vec<DebrisView>,
    pub loot: Vec<LootView>,
    pub pickups: Vec<Pickup>,
    pub factions: Vec<Faction>,
    /// The rock cells that are mined out.
    pub depleted: Vec<RockCell>,
    pub kill_feed: Vec<Kill>,
}

/// What moves through a sector besides ships, list by list.
#[verifier::ext_equal]
pub struct SceneModel {
    pub bullets: Seq<BulletView>,
    pub beams: Seq<BeamView>,
    pub explosions: Seq<ExplosionView>,
    pub debris: Seq<DebrisView>,
    pub loot: Seq<LootView>,
    pub pickups: Seq<Pickup>,
    pub factions: Seq<Faction>,
    pub depleted: Seq<RockCell>,
    pub kill_feed: Seq<Kill>,
}

impl View for Scene {
    type V = SceneModel;

    open spec fn view(&self) -> SceneModel {
        SceneModel {
            bullets: self.bullets@,
            beams: self.beams@,
            explosions: self.explosions@,
            debris: self.debris@,
            loot: self.loot@,
            pickups: self.pickups@,
            factions: self.factions@,
            depleted: self.depleted@,
            kill_feed: self.kill_feed@,
        }
    }
}

/// A scene in which nothing moves.
pub open spec fn no_scene() -> SceneModel {
    SceneModel {
        bullets: Seq::empty(),
        beams: Seq::empty(),
        explosions: Seq::empty(),
        debris: Seq::empty(),
        loot: Seq::empty(),
        pickups: Seq::empty(),
        factions: Seq::empty(),
        depleted: Seq::empty(),
        kill_feed: Seq::empty(),
    }
}

impl Scene {
    pub open spec fn is_empty(&self) -> bool {
        &&& self.bullets@.len() == 0
        &&& self.beams@.len() == 0
        &&& self.explosions@.len() == 0
        &&& self.debris@.len() == 0
        &&& self.loot@.len() == 0
        &&& self.pickups@.len() == 0
        &&& self.factions@.len() == 0
        &&& self.depleted@.len() == 0
        &&& self.kill_feed@.len() == 0
    }

    pub fn new() -> (s: Scene)
        ensures
            s.is_empty(),
            s@ == no_scene(),
    {
        Scene {
            bullets: Vec::new(),
            beams: Vec::new(),
            explosions: Vec::new(),
            debris: Vec::new(),
            loot: Vec::new(),
            pickups: Vec::new(),
            factions: Vec::new(),
            depleted: Vec::new(),
            kill_feed: Vec::new(),
        }
    }
}

/// The state of a sector.
pub struct Sim {
    pub sector: SectorId,
    /// The next tick to be simulated.
    pub tick: u64,
    /// The version of the ruleset in force.
    pub rules: u64,
    pub ships: SortedMap<String, Ship>,
    pub transit_out: Vec<Transit>,
    pub journal: Vec<Entry>,
    pub scene: Scene,
}

/// The whole state: the sector, the clock, the rules, the roster, the ships on their way out, the
/// journal and the scene.
#[verifier::ext_equal]
pub struct SimModel {
    pub sector: SectorId,
    pub tick: u64,
    pub rules: u64,
    pub ships: Map<Seq<char>, ShipModel>,
    pub transit_out: Seq<TransitView>,
    pub journal: Seq<EntryView>,
    pub scene: SceneModel,
}

/// The ships of a roster, as models.
pub open spec fn ship_models(ships: Map<Seq<char>, Ship>) -> Map<Seq<char>, ShipModel> {
    ships.map_values(|s: Ship| s@)
}

impl View for Sim {
    type V = SimModel;

    open spec fn view(&self) -> SimModel {
        SimModel {
            sector: self.sector,
            tick: self.tick,
            rules: self.rules,
            ships: ship_models(self.ships@),
            transit_out: views(self.transit_out@),
            journal: views(self.journal@),
            scene: self.scene@,
        }
    }
}

/// A sector in which nothing has happened yet.
pub open spec fn fresh_sector(sector: SectorId, rules: u64, tick: u64) -> SimModel {
    SimModel {
        sector,
        tick,
        rules,
        ships: Map::empty(),
        transit_out: Seq::empty(),
        journal: Seq::empty(),
        scene: no_scene(),
    }
}

/// The sector with an order written down at the present tick.
pub open spec fn noted(s: SimModel, order: OrderView) -> SimModel {
    SimModel { journal: s.journal.push(EntryView { tick: s.tick, order }), ..s }
}

/// The sector with a ship on its roster.
pub open spec fn with_ship(s: SimModel, id: Seq<char>, ship: ShipModel) -> SimModel {
    SimModel { ships: s.ships.insert(id, ship), ..s }
}

/// The sector with the player's ship launched, unless it is there already.
pub open spec fn present(s: SimModel, id: Seq<char>, name: Seq<char>, hue: u32) -> SimModel {
    if s.ships.contains_key(id) {
        s
    } else {
        with_ship(s, id, new_ship(name, hue))
    }
}

/// The sector once a player has asked for a node of the tech tree.
pub open spec fn with_tech(s: SimModel, id: Seq<char>, node: Seq<char>) -> SimModel {
    if s.ships.contains_key(id) {
        with_ship(s, id, bought(s.ships[id], node))
    } else {
        s
    }
}

/// The sector once a player has asked for a weapon.
pub open spec fn with_weapon(s: SimModel, id: Seq<char>, weapon: Seq<char>) -> SimModel {
    if s.ships.contains_key(id) {
        with_ship(s, id, armed(s.ships[id], weapon))
    } else {
        s
    }
}

impl Sim {
    pub open spec fn wf(&self) -> bool {
        self.ships.wf()
    }

    /// The sector at the origin, under the first ruleset.
    pub fn new() -> (s: Sim)
        ensures
            s.wf(),
            s@ == fresh_sector(SectorId { sx: 0, sy: 0 }, 1, 0),
            s.scene.is_empty(),
    {
        Sim::for_sector(SectorId::new(0, 0), 1)
    }

    /// A sector in which nothing has happened yet.
    pub fn for_sector(sector: SectorId, rules: u64) -> (s: Sim)
        ensures
            s.wf(),
            s@ == fresh_sector(sector, rules, 0),
            s.scene.is_empty(),
    {
        let s = Sim {
            sector,
            tick: 0,
            rules,
            ships: SortedMap::new(),
            transit_out: Vec::new(),
            journal: Vec::new(),
            scene: Scene::new(),
        };
        assert(s@ =~= fresh_sector(sector, rules, 0));
        s
    }

    /// Writes an order down at the present tick.
    pub fn note(&mut self, order: Order)
        requires
            old(self).wf(),
        ensures
            final(self).wf(),
            final(self)@ == noted(old(self)@, order@),
            final(self).scene == old(self).scene,
            final(self).ships == old(self).ships,
    {
        let ghost before = self@;
        self.journal.push(Entry { tick: self.tick, order });
        assert(views(self.journal@) =~= before.journal.push(
            EntryView { tick: before.tick, order: order@ },
        ));
        assert(self@ =~= noted(before, order@));
    }

    fn ensure_present(&mut self, id: &str, name: &str, hue: u32)
        requires
            old(self).wf(),
        ensures
            final(self).wf(),
            final(self)@ == present(old(self)@, id@, name@, hue),
            final(self).scene == old(self).scene,
            final(self).journal == old(self).journal,
    {
        let ghost before = self@;
        let key: String = id.to_string();
        if !self.ships.contains_key(&key) {
            let ghost ships0 = self.ships@;
            let ship = Ship::launch(name.to_string(), hue);
            let _ = self.ships.insert(key, ship);
            assert(ship_models(self.ships@) =~= before.ships.insert(id@, new_ship(name@, hue)));
            assert(self@ =~= present(before, id@, name@, hue));
        }
    }

    /// A player comes aboard under a name.
    pub fn join(&mut self, id: &str, name: &str, hue: u32)
        requires
            old(self).wf(),
        ensures
            final(self).wf(),
            final(self)@ == noted(
                present(old(self)@, id@, name@, hue),
                OrderView::Join { id: id@, name: name@, hue },
            ),
            final(self).scene == old(self).scene,
    {
        self.ensure_present(id, name, hue);
        self.note(Order::Join { id: id.to_string(), name: name.to_string(), hue });
    }

    /// A player flies. One who is not aboard yet comes aboard with it.
    pub fn apply_intent(
        &mut self,
        id: &str,
        thrust: bool,
        turn: i32,
        fire: bool,
        aim: Option<i32>,
        name: Option<String>,
        hue: u32,
    )
        requires
            old(self).wf(),
        ensures
            final(self).wf(),
            final(self)@ == noted(
                present(
                    old(self)@,
                    id@,
                    match text_of(name) {
                        Some(n) => n,
                        None => Seq::empty(),
                    },
                    hue,
                ),
                OrderView::Intent { id: id@, thrust, turn, fire, aim, name: text_of(name), hue },
            ),
            final(self).scene == old(self).scene,
    {
        match &name {
            Some(n) => {
                self.ensure_present(id, n.as_str(), hue);
            },
            None => {
                let unnamed: String = String::new();
                self.ensure_present(id, unnamed.as_str(), hue);
            },
        }
        self.note(Order::Intent { id: id.to_string(), thrust, turn, fire, aim, name, hue });
    }

    /// A player buys a node of the tech tree, where their ship can.
    pub fn buy_tech(&mut self, id: &str, node: &str)
        requires
            old(self).wf(),
        ensures
            final(self).wf(),
            final(self)@ == noted(
                with_tech(old(self)@, id@, node@),
                OrderView::BuyTech { id: id@, node: node@ },
            ),
            final(self).scene == old(self).scene,
    {
        let ghost before = self@;
        let key: String = id.to_string();
        if let Some(ship) = self.ships.get_mut(&key) {
            let _ = ship.buy(node);
        }
        proof {
            let after = with_tech(before, id@, node@);
            assert(ship_models(self.ships@) =~= after.ships);
            assert(self@ =~= after);
        }
        self.note(Order::BuyTech { id: key, node: node.to_string() });
    }

    /// A player mounts a weapon, where it is unlocked.
    pub fn select_weapon(&mut self, id: &str, weapon: &str)
        requires
            old(self).wf(),
        ensures
            final(self).wf(),
            final(self)@ == noted(
                with_weapon(old(self)@, id@, weapon@),
                OrderView::SelectWeapon { id: id@, weapon: weapon@ },
            ),
            final(self).scene == old(self).scene,
    {
        let ghost before = self@;
        let key: String = id.to_string();
        if let Some(ship) = self.ships.get_mut(&key) {
            let _ = ship.mount(weapon);
        }
        proof {
            let after = with_weapon(before, id@, weapon@);
            assert(ship_models(self.ships@) =~= after.ships);
            assert(self@ =~= after);
        }
        self.note(Order::SelectWeapon { id: key, weapon: weapon.to_string() });
    }

    /// A player leaves, and their ship with them.
    pub fn leave(&mut self, id: &str)
        requires
            old(self).wf(),
        ensures
            final(self).wf(),
            final(self)@ == noted(
                SimModel { ships: old(self)@.ships.remove(id@), ..old(self)@ },
                OrderView::Leave { id: id@ },
            ),
            final(self).scene == old(self).scene,
    {
        let ghost before = self@;
        let key: String = id.to_string();
        let _ = self.ships.remove(&key);
        assert(ship_models(self.ships@) =~= before.ships.remove(id@));
        assert(self@ =~= SimModel { ships: before.ships.remove(id@), ..before });
        self.note(Order::Leave { id: key });
    }

    /// The clock moves on by one tick.
    pub fn step(&mut self)
        requires
            old(self).wf(),
            old(self).tick < u64::MAX,
        ensures
            final(self).wf(),
            final(self)@ == (SimModel { tick: (old(self).tick + 1) as u64, ..old(self)@ }),
            final(self).scene == old(self).scene,
            final(self).ships == old(self).ships,
    {
        self.tick = self.tick + 1;
    }

    /// A ship has crossed the edge: it leaves the roster and is on its way.
    pub fn send_out(&mut self, id: &str, to: SectorId) -> (found: bool)
        requires
            old(self).wf(),
        ensures
            final(self).wf(),
            found == old(self)@.ships.contains_key(id@),
            final(self)@ == (if found {
                SimModel {
                    ships: old(self)@.ships.remove(id@),
                    transit_out: old(self)@.transit_out.push(
                        TransitView { to, id: id@, ship: old(self)@.ships[id@] },
                    ),
                    ..old(self)@
                }
            } else {
                old(self)@
            }),
            final(self).scene == old(self).scene,
    {
        let ghost before = self@;
        let key: String = id.to_string();
        match self.ships.remove(&key) {
            Some(ship) => {
                assert(ship_models(self.ships@) =~= before.ships.remove(id@));
                self.transit_out.push(Transit { to, id: key, ship });
                proof {
                    let t = TransitView { to, id: id@, ship: before.ships[id@] };
                    assert(views(self.transit_out@) =~= before.transit_out.push(t));
                    assert(self@ =~= SimModel {
                        ships: before.ships.remove(id@),
                        transit_out: before.transit_out.push(t),
                        ..before
                    });
                }
                true
            },
            None => {
                assert(ship_models(self.ships@) =~= before.ships);
                assert(self@ =~= before);
                false
            },
        }
    }

    /// Takes the ships that are on their way out.
    pub fn take_transits(&mut self) -> (out: Vec<Transit>)
        requires
            old(self).wf(),
        ensures
            final(self).wf(),
            out@ == old(self).transit_out@,
            final(self)@ == (SimModel { transit_out: Seq::empty(), ..old(self)@ }),
            final(self).scene == old(self).scene,
    {
        let ghost before = self@;
        let mut out: Vec<Transit> = Vec::new();
        out.append(&mut self.transit_out);
        assert(out@ =~= old(self).transit_out@);
        assert(self@ =~= SimModel { transit_out: Seq::empty(), ..before });
        out
    }

    /// Takes a ship in that comes from a neighbouring sector, with everything it carries.
    pub fn accept_transit(&mut self, id: String, ship: Ship)
        requires
            old(self).wf(),
        ensures
            final(self).wf(),
            final(self)@ == with_ship(old(self)@, id@, ship@),
            final(self).scene == old(self).scene,
    {
        let ghost before = self@;
        let _ = self.ships.insert(id, ship);
        assert(ship_models(self.ships@) =~= before.ships.insert(id@, ship@));
        assert(self@ =~= with_ship(before, id@, ship@));
    }

    /// How many ships are on the roster.
    pub fn ship_count(&self) -> (n: usize)
        requires
            self.wf(),
        ensures
            self@.ships.dom().finite(),
            n == self@.ships.dom().len(),
    {
        proof {
            self.ships.lemma_orders();
            assert(ship_models(self.ships@).dom() =~= self.ships@.dom());
        }
        self.ships.len()
    }
}

/// A text as one word: the hash of its bytes.
pub open spec fn text_word(s: Seq<char>) -> u64 {
    fnv64_from(FNV64_BASIS, vstd::utf8::encode_utf8(s))
}

/// A signed number as a word.
pub open spec fn int_word(n: i32) -> u64 {
    (n + 0x8000_0000) as u64
}

pub open spec fn flag_word(b: bool) -> u64 {
    if b {
        1
    } else {
        0
    }
}

pub open spec fn role_word(r: ShipRole) -> u64 {
    match r {
        ShipRole::Player => 0,
        ShipRole::Drone => 1,
        ShipRole::Fighter => 2,
        ShipRole::Hauler => 3,
    }
}

/// An optional number as two words.
pub open spec fn maybe_int(n: Option<i32>) -> Seq<u64> {
    match n {
        Some(v) => seq![1u64, int_word(v)],
        None => seq![0u64, 0u64],
    }
}

/// An optional text as two words.
pub open spec fn maybe_text(s: Option<Seq<char>>) -> Seq<u64> {
    match s {
        Some(t) => seq![1u64, text_word(t)],
        None => seq![0u64, 0u64],
    }
}

/// A ship as words.
pub open spec fn ship_words(id: Seq<char>, m: ShipModel) -> Seq<u64> {
    let b = m.body;
    seq![
        text_word(id),
        text_word(m.name),
        m.hue as u64,
        int_word(b.x),
        int_word(b.y),
        int_word(b.a),
        int_word(b.hp),
        int_word(b.max_hp),
        int_word(b.shield),
        int_word(b.max_shield),
        int_word(b.energy),
        int_word(b.max_energy),
        b.minerals as u64,
        b.kills as u64,
        b.guns as u64,
        role_word(b.role),
        flag_word(b.alive),
        text_word(m.weapon),
        m.input_ack,
        m.last_input_seq,
    ] + maybe_text(m.owner) + m.effects.map_values(|e: u32| e as u64) + m.weapons.map_values(
        |w: Seq<char>| text_word(w),
    ) + m.tech.map_values(|t: Seq<char>| text_word(t))
}

pub open spec fn command_words(c: FactionCommand) -> Seq<u64> {
    match c {
        FactionCommand::Defend => seq![0u64, 0u64, 0u64],
        FactionCommand::Follow => seq![1u64, 0u64, 0u64],
        FactionCommand::Mine => seq![2u64, 0u64, 0u64],
        FactionCommand::Hold => seq![3u64, 0u64, 0u64],
        FactionCommand::AttackNearest => seq![4u64, 0u64, 0u64],
        FactionCommand::AttackMove { x, y } => seq![5u64, int_word(x), int_word(y)],
    }
}

/// A journal entry as words.
pub open spec fn entry_words(e: EntryView) -> Seq<u64> {
    match e.order {
        OrderView::Join { id, name, hue } => seq![
            e.tick,
            0u64,
            text_word(id),
            text_word(name),
            hue as u64,
        ],
        OrderView::Intent { id, thrust, turn, fire, aim, name, hue } => seq![
            e.tick,
            1u64,
            text_word(id),
            flag_word(thrust),
            int_word(turn),
            flag_word(fire),
            hue as u64,
        ] + maybe_int(aim) + maybe_text(name),
        OrderView::BuyTech { id, node } => seq![e.tick, 2u64, text_word(id), text_word(node)],
        OrderView::SelectWeapon { id, weapon } => seq![
            e.tick,
            3u64,
            text_word(id),
            text_word(weapon),
        ],
        OrderView::Command { id, command } => seq![e.tick, 4u64, text_word(id)] + command_words(
            command,
        ),
        OrderView::Respawn { id } => seq![e.tick, 5u64, text_word(id)],
        OrderView::Leave { id } => seq![e.tick, 6u64, text_word(id)],
    }
}

/// The first `n` ships of a roster as words, in ascending order of their ids.
pub open spec fn roster_words(
    ids: Seq<Seq<char>>,
    ships: Map<Seq<char>, ShipModel>,
    n: nat,
) -> Seq<u64>
    decreases n,
{
    if n == 0 {
        Seq::empty()
    } else {
        roster_words(ids, ships, (n - 1) as nat) + ship_words(ids[n - 1], ships[ids[n - 1]])
    }
}

/// The first `n` entries of a journal as words.
pub open spec fn journal_words(journal: Seq<EntryView>, n: nat) -> Seq<u64>
    decreases n,
{
    if n == 0 {
        Seq::empty()
    } else {
        journal_words(journal, (n - 1) as nat) + entry_words(journal[n - 1])
    }
}

/// A sector as words: its address, clock and rules, its roster and its journal. The ships on their way
/// out are not among them: they are handed over as they come, which no two hosts do at one moment. Nor is
/// the scene, which is reported and follows from the rest.
pub open spec fn sim_words(s: SimModel, ids: Seq<Seq<char>>) -> Seq<u64> {
    seq![
        int_word(s.sector.sx),
        int_word(s.sector.sy),
        s.tick,
        s.rules,
        ids.len() as u64,
        s.journal.len() as u64,
    ] + roster_words(ids, s.ships, ids.len()) + journal_words(s.journal, s.journal.len())
}

/// The hash of some words.
pub open spec fn hash_words(words: Seq<u64>) -> u64
    decreases words.len(),
{
    if words.len() == 0 {
        FNV64_BASIS
    } else {
        (hash_words(words.drop_last()) ^ words.last()).wrapping_mul(crate::hash::FNV64_PRIME)
    }
}

fn word_of_text(s: &str) -> (w: u64)
    ensures
        w == text_word(s@),
{
    fnv64(FNV64_BASIS, s.as_bytes())
}

fn word_of_int(n: i32) -> (w: u64)
    ensures
        w == int_word(n),
{
    (n as i64 + 0x8000_0000) as u64
}

fn word_of_flag(b: bool) -> (w: u64)
    ensures
        w == flag_word(b),
{
    if b {
        1
    } else {
        0
    }
}

fn push_maybe_text(out: &mut Vec<u64>, s: &Option<String>)
    ensures
        final(out)@ == old(out)@ + maybe_text(text_of(*s)),
{
    match s {
        Some(t) => {
            out.push(1);
            out.push(word_of_text(t.as_str()));
        },
        None => {
            out.push(0);
            out.push(0);
        },
    }
    assert(out@ =~= old(out)@ + maybe_text(text_of(*s)));
}

fn push_maybe_int(out: &mut Vec<u64>, n: &Option<i32>)
    ensures
        final(out)@ == old(out)@ + maybe_int(*n),
{
    match n {
        Some(v) => {
            out.push(1);
            out.push(word_of_int(*v));
        },
        None => {
            out.push(0);
            out.push(0);
        },
    }
    assert(out@ =~= old(out)@ + maybe_int(*n));
}

fn push_ship(out: &mut Vec<u64>, id: &str, s: &Ship)
    ensures
        final(out)@ == old(out)@ + ship_words(id@, s@),
{
    let ghost o = out@;
    let b: Body = s.body;
    let role: u64 = match b.role {
        ShipRole::Player => 0,
        ShipRole::Drone => 1,
        ShipRole::Fighter => 2,
        ShipRole::Hauler => 3,
    };
    let mut head: Vec<u64> = Vec::new();
    head.push(word_of_text(id));
    head.push(word_of_text(s.name.as_str()));
    head.push(s.hue as u64);
    head.push(word_of_int(b.x));
    head.push(word_of_int(b.y));
    head.push(word_of_int(b.a));
    head.push(word_of_int(b.hp));
    head.push(word_of_int(b.max_hp));
    head.push(word_of_int(b.shield));
    head.push(word_of_int(b.max_shield));
    head.push(word_of_int(b.energy));
    head.push(word_of_int(b.max_energy));
    head.push(b.minerals as u64);
    head.push(b.kills as u64);
    head.push(b.guns as u64);
    head.push(role);
    head.push(word_of_flag(b.alive));
    head.push(word_of_text(s.weapon.as_str()));
    head.push(s.input_ack);
    head.push(s.last_input_seq);
    let ghost h = head@;
    push_maybe_text(&mut head, &s.owner);
    let ghost h2 = head@;
    let ghost fx = s.effects@.map_values(|e: u32| e as u64);
    let mut i: usize = 0;
    assert(fx.subrange(0, 0) =~= Seq::<u64>::empty());
    assert(h2 + Seq::<u64>::empty() =~= h2);
    while i < s.effects.len()
        invariant
            i <= s.effects@.len(),
            fx == s.effects@.map_values(|e: u32| e as u64),
            head@ == h2 + fx.subrange(0, i as int),
        decreases s.effects@.len() - i,
    {
        head.push(s.effects[i] as u64);
        i = i + 1;
        assert(head@ =~= h2 + fx.subrange(0, i as int));
    }
    assert(fx.subrange(0, i as int) =~= fx);
    let ghost h3 = head@;
    let ghost ws = views(s.weapons@).map_values(|w: Seq<char>| text_word(w));
    let mut k: usize = 0;
    assert(ws.subrange(0, 0) =~= Seq::<u64>::empty());
    assert(h3 + Seq::<u64>::empty() =~= h3);
    while k < s.weapons.len()
        invariant
            k <= s.weapons@.len(),
            ws == views(s.weapons@).map_values(|w: Seq<char>| text_word(w)),
            head@ == h3 + ws.subrange(0, k as int),
        decreases s.weapons@.len() - k,
    {
        head.push(word_of_text(s.weapons[k].as_str()));
        k = k + 1;
        assert(head@ =~= h3 + ws.subrange(0, k as int));
    }
    assert(ws.subrange(0, k as int) =~= ws);
    let ghost h4 = head@;
    let ghost ts = views(s.tech@).map_values(|t: Seq<char>| text_word(t));
    let mut n: usize = 0;
    assert(ts.subrange(0, 0) =~= Seq::<u64>::empty());
    assert(h4 + Seq::<u64>::empty() =~= h4);
    while n < s.tech.len()
        invariant
            n <= s.tech@.len(),
            ts == views(s.tech@).map_values(|t: Seq<char>| text_word(t)),
            head@ == h4 + ts.subrange(0, n as int),
        decreases s.tech@.len() - n,
    {
        head.push(word_of_text(s.tech[n].as_str()));
        n = n + 1;
        assert(head@ =~= h4 + ts.subrange(0, n as int));
    }
    assert(ts.subrange(0, n as int) =~= ts);
    proof {
        let m = s@;
        assert(h =~= seq![
            text_word(id@),
            text_word(m.name),
            m.hue as u64,
            int_word(b.x),
            int_word(b.y),
            int_word(b.a),
            int_word(b.hp),
            int_word(b.max_hp),
            int_word(b.shield),
            int_word(b.max_shield),
            int_word(b.energy),
            int_word(b.max_energy),
            b.minerals as u64,
            b.kills as u64,
            b.guns as u64,
            role_word(b.role),
            flag_word(b.alive),
            text_word(m.weapon),
            m.input_ack,
            m.last_input_seq,
        ]);
        assert(head@ == ship_words(id@, m));
    }
    out.append(&mut head);
}

fn push_entry(out: &mut Vec<u64>, e: &Entry)
    ensures
        final(out)@ == old(out)@ + entry_words(e@),
{
    let mut w: Vec<u64> = Vec::new();
    w.push(e.tick);
    match &e.order {
        Order::Join { id, name, hue } => {
            w.push(0);
            w.push(word_of_text(id.as_str()));
            w.push(word_of_text(name.as_str()));
            w.push(*hue as u64);
            assert(w@ =~= entry_words(e@));
        },
        Order::Intent { id, thrust, turn, fire, aim, name, hue } => {
            w.push(1);
            w.push(word_of_text(id.as_str()));
            w.push(word_of_flag(*thrust));
            w.push(word_of_int(*turn));
            w.push(word_of_flag(*fire));
            w.push(*hue as u64);
            let ghost head = w@;
            push_maybe_int(&mut w, aim);
            push_maybe_text(&mut w, name);
            assert(w@ =~= entry_words(e@));
        },
        Order::BuyTech { id, node } => {
            w.push(2);
            w.push(word_of_text(id.as_str()));
            w.push(word_of_text(node.as_str()));
            assert(w@ =~= entry_words(e@));
        },
        Order::SelectWeapon { id, weapon } => {
            w.push(3);
            w.push(word_of_text(id.as_str()));
            w.push(word_of_text(weapon.as_str()));
            assert(w@ =~= entry_words(e@));
        },
        Order::Command { id, command } => {
            w.push(4);
            w.push(word_of_text(id.as_str()));
            match command {
                FactionCommand::Defend => {
                    w.push(0);
                    w.push(0);
                    w.push(0);
                },
                FactionCommand::Follow => {
                    w.push(1);
                    w.push(0);
                    w.push(0);
                },
                FactionCommand::Mine => {
                    w.push(2);
                    w.push(0);
                    w.push(0);
                },
                FactionCommand::Hold => {
                    w.push(3);
                    w.push(0);
                    w.push(0);
                },
                FactionCommand::AttackNearest => {
                    w.push(4);
                    w.push(0);
                    w.push(0);
                },
                FactionCommand::AttackMove { x, y } => {
                    w.push(5);
                    w.push(word_of_int(*x));
                    w.push(word_of_int(*y));
                },
            }
            assert(w@ =~= entry_words(e@));
        },
        Order::Respawn { id } => {
            w.push(5);
            w.push(word_of_text(id.as_str()));
            assert(w@ =~= entry_words(e@));
        },
        Order::Leave { id } => {
            w.push(6);
            w.push(word_of_text(id.as_str()));
            assert(w@ =~= entry_words(e@));
        },
    }
    out.append(&mut w);
}

impl Sim {
    /// The hash of the sector: the claim of a replica about its state.
    pub fn state_hash(&self) -> (h: u64)
        requires
            self.wf(),
        ensures
            h == hash_words(sim_words(self@, views(self.ships.key_order()))),
    {
        let ghost ids = views(self.ships.key_order());
        let ghost ships = self@.ships;
        let ghost journal = self@.journal;
        proof {
            self.ships.lemma_orders();
        }
        let mut words: Vec<u64> = Vec::new();
        words.push(word_of_int(self.sector.sx));
        words.push(word_of_int(self.sector.sy));
        words.push(self.tick);
        words.push(self.rules);
        words.push(self.ships.len() as u64);
        words.push(self.journal.len() as u64);
        let ghost head = words@;
        let mut i: usize = 0;
        assert(head + Seq::<u64>::empty() =~= head);
        while i < self.ships.len()
            invariant
                i <= ids.len(),
                self.wf(),
                ids == views(self.ships.key_order()),
                self.ships.key_order().len() == self.ships.value_order().len(),
                ships == self@.ships,
                forall|j: int|
                    #![trigger self.ships.key_order()[j]]
                    0 <= j < self.ships.key_order().len() ==> self.ships@.contains_pair(
                        self.ships.key_order()[j]@,
                        self.ships.value_order()[j],
                    ),
                words@ == head + roster_words(ids, ships, i as nat),
            decreases ids.len() - i,
        {
            let ghost before = words@;
            let id = &self.ships.keys()[i];
            let ship = &self.ships.values()[i];
            proof {
                assert(self.ships.key_order()[i as int] == *id);
                assert(ids[i as int] == id@);
                assert(ships[id@] == ship@);
            }
            push_ship(&mut words, id.as_str(), ship);
            i = i + 1;
            assert(words@ =~= head + roster_words(ids, ships, i as nat));
        }
        let ghost mid = words@;
        let mut k: usize = 0;
        assert(mid + Seq::<u64>::empty() =~= mid);
        while k < self.journal.len()
            invariant
                k <= journal.len(),
                journal == views(self.journal@),
                words@ == mid + journal_words(journal, k as nat),
            decreases journal.len() - k,
        {
            assert(journal[k as int] == self.journal@[k as int]@);
            push_entry(&mut words, &self.journal[k]);
            k = k + 1;
            assert(words@ =~= mid + journal_words(journal, k as nat));
        }
        proof {
            assert(words@ =~= sim_words(self@, ids));
        }
        let mut h: u64 = FNV64_BASIS;
        let mut j: usize = 0;
        assert(words@.subrange(0, 0) =~= Seq::<u64>::empty());
        while j < words.len()
            invariant
                j <= words@.len(),
                h == hash_words(words@.subrange(0, j as int)),
            decreases words@.len() - j,
        {
            assert(words@.subrange(0, j + 1).drop_last() =~= words@.subrange(0, j as int));
            h = (h ^ words[j]).wrapping_mul(crate::hash::FNV64_PRIME);
            j = j + 1;
        }
        assert(words@.subrange(0, j as int) =~= words@);
        h
    }

    /// How many players are aboard: the ships that belong to no fleet.
    pub fn player_count(&self) -> (n: usize)
        requires
            self.wf(),
        ensures
            n == self.ships.value_order().filter(|s: Ship| s.owner is None).len(),
    {
        let ships = self.ships.values();
        let ghost all = ships@;
        let ghost p = |s: Ship| s.owner is None;
        let mut n: usize = 0;
        let mut i: usize = 0;
        proof {
            reveal(Seq::filter);
            assert(all.subrange(0, 0) =~= Seq::<Ship>::empty());
        }
        while i < ships.len()
            invariant
                n <= i <= all.len(),
                all == ships@,
                p == (|s: Ship| s.owner is None),
                n == all.subrange(0, i as int).filter(p).len(),
            decreases all.len() - i,
        {
            proof {
                assert(all.subrange(0, i + 1) =~= all.subrange(0, i as int).push(all[i as int]));
                crate::sort::lemma_filter_push(all.subrange(0, i as int), all[i as int], p);
            }
            if ships[i].owner.is_none() {
                n = n + 1;
            }
            i = i + 1;
        }
        assert(all.subrange(0, i as int) =~= all);
        n
    }
}

/// Sectors in the same state have the same hash.
pub proof fn law_equal_states_hash_alike(a: Sim, b: Sim)
    requires
        a.wf(),
        b.wf(),
        a@ == b@,
    ensures
        sim_words(a@, views(a.ships.key_order())) == sim_words(b@, views(b.ships.key_order())),
{
    a.ships.lemma_orders();
    b.ships.lemma_orders();
    assert(ship_models(a.ships@).dom() =~= a.ships@.dom());
    assert(ship_models(b.ships@).dom() =~= b.ships@.dom());
    let ka = a.ships.key_order();
    let kb = b.ships.key_order();
    assert forall|v: Seq<char>| #[trigger] views(ka).contains(v) <==> views(kb).contains(v) by {
        assert(views(ka).to_set().contains(v) <==> views(kb).to_set().contains(v));
    }
    crate::order::lemma_ascending_unique(ka, kb);
}

/// Putting a ship on the roster leaves every other ship, and all else, as it is.
pub proof fn law_roster_changes_one_ship(s: SimModel, id: Seq<char>, other: Seq<char>, ship: ShipModel)
    requires
        other != id,
    ensures
        with_ship(s, id, ship).ships.contains_pair(id, ship),
        with_ship(s, id, ship).ships.contains_key(other) <==> s.ships.contains_key(other),
        s.ships.contains_key(other) ==> with_ship(s, id, ship).ships[other] == s.ships[other],
        with_ship(s, id, ship).tick == s.tick && with_ship(s, id, ship).journal == s.journal && with_ship(
            s,
            id,
            ship,
        ).sector == s.sector && with_ship(s, id, ship).rules == s.rules && with_ship(s, id, ship).scene
            == s.scene && with_ship(s, id, ship).transit_out == s.transit_out,
{
}

/// Buying and mounting change the ship of the one who asks, by what is sold and what it has, and nothing where there is no such ship.
pub proof fn law_purchases_reach_their_ship(s: SimModel, id: Seq<char>, what: Seq<char>)
    ensures
        s.ships.contains_key(id) ==> with_tech(s, id, what).ships[id] == bought(s.ships[id], what)
            && with_weapon(s, id, what).ships[id] == armed(s.ships[id], what),
        !s.ships.contains_key(id) ==> with_tech(s, id, what) == s && with_weapon(s, id, what) == s,
{
}

/// The digest of a state reads every figure of every ship: ships with the same words are the same in all that is a number, and in how many
/// effects, weapons and purchases they have together.
pub proof fn law_words_tell_ships_apart(a: Seq<char>, m: ShipModel, b: Seq<char>, n: ShipModel)
    requires
        ship_words(a, m) == ship_words(b, n),
    ensures
        m.body == n.body,
        m.hue == n.hue,
        m.input_ack == n.input_ack,
        m.last_input_seq == n.last_input_seq,
        m.owner is Some <==> n.owner is Some,
        m.effects.len() + m.weapons.len() + m.tech.len() == n.effects.len() + n.weapons.len()
            + n.tech.len(),
        text_word(a) == text_word(b),
        text_word(m.name) == text_word(n.name),
        text_word(m.weapon) == text_word(n.weapon),
{
    let (x, y) = (ship_words(a, m), ship_words(b, n));
    assert(x[0] == text_word(a) && y[0] == text_word(b));
    assert(x[1] == text_word(m.name) && y[1] == text_word(n.name));
    assert(x[2] == m.hue && y[2] == n.hue);
    assert(x[3] == int_word(m.body.x) && y[3] == int_word(n.body.x));
    assert(x[4] == int_word(m.body.y) && y[4] == int_word(n.body.y));
    assert(x[5] == int_word(m.body.a) && y[5] == int_word(n.body.a));
    assert(x[6] == int_word(m.body.hp) && y[6] == int_word(n.body.hp));
    assert(x[7] == int_word(m.body.max_hp) && y[7] == int_word(n.body.max_hp));
    assert(x[8] == int_word(m.body.shield) && y[8] == int_word(n.body.shield));
    assert(x[9] == int_word(m.body.max_shield) && y[9] == int_word(n.body.max_shield));
    assert(x[10] == int_word(m.body.energy) && y[10] == int_word(n.body.energy));
    assert(x[11] == int_word(m.body.max_energy) && y[11] == int_word(n.body.max_energy));
    assert(x[12] == m.body.minerals && y[12] == n.body.minerals);
    assert(x[13] == m.body.kills && y[13] == n.body.kills);
    assert(x[14] == m.body.guns && y[14] == n.body.guns);
    assert(x[15] == role_word(m.body.role) && y[15] == role_word(n.body.role));
    assert(x[16] == flag_word(m.body.alive) && y[16] == flag_word(n.body.alive));
    assert(x[17] == text_word(m.weapon) && y[17] == text_word(n.weapon));
    assert(x[18] == m.input_ack && y[18] == n.input_ack);
    assert(x[19] == m.last_input_seq && y[19] == n.last_input_seq);
    assert(x[20] == maybe_text(m.owner)[0] && y[20] == maybe_text(n.owner)[0]);
    assert(m.owner is Some <==> maybe_text(m.owner)[0] == 1);
    assert(n.owner is Some <==> maybe_text(n.owner)[0] == 1);
    assert(x.len() == y.len());
}

/// The digest of a state reads the sector, the clock, the rules, how many ships there are and how many orders were given.
pub proof fn law_words_tell_states_apart(a: SimModel, ids: Seq<Seq<char>>, b: SimModel, jds: Seq<Seq<char>>)
    requires
        sim_words(a, ids) == sim_words(b, jds),
        ids.len() <= u64::MAX,
        jds.len() <= u64::MAX,
        a.journal.len() <= u64::MAX,
        b.journal.len() <= u64::MAX,
    ensures
        a.sector == b.sector,
        a.tick == b.tick,
        a.rules == b.rules,
        ids.len() == jds.len(),
        a.journal.len() == b.journal.len(),
{
    let (x, y) = (sim_words(a, ids), sim_words(b, jds));
    assert(x[0] == int_word(a.sector.sx) && y[0] == int_word(b.sector.sx));
    assert(x[1] == int_word(a.sector.sy) && y[1] == int_word(b.sector.sy));
    assert(x[2] == a.tick && y[2] == b.tick);
    assert(x[3] == a.rules && y[3] == b.rules);
    assert(x[4] == ids.len() as u64 && y[4] == jds.len() as u64);
    assert(x[5] == a.journal.len() as u64 && y[5] == b.journal.len() as u64);
}

/// Every ship of a roster and every order of a journal adds its words to the digest, one after the other.
pub proof fn law_words_of_all(ids: Seq<Seq<char>>, ships: Map<Seq<char>, ShipModel>, journal: Seq<EntryView>, n: nat)
    requires
        n < ids.len(),
        n < journal.len(),
    ensures
        roster_words(ids, ships, n + 1) == roster_words(ids, ships, n) + ship_words(
            ids[n as int],
            ships[ids[n as int]],
        ),
        journal_words(journal, n + 1) == journal_words(journal, n) + entry_words(journal[n as int]),
        entry_words(journal[n as int]).len() >= 3,
        entry_words(journal[n as int])[0] == journal[n as int].tick,
{
}

/// The digest takes the words in one by one: a word is folded in and then multiplied.
pub proof fn law_digest_takes_words_in(words: Seq<u64>, w: u64)
    ensures
        hash_words(words.push(w)) as int == ((hash_words(words) ^ w) as int * 1_099_511_628_211)
            % 0x1_0000_0000_0000_0000,
        hash_words(Seq::empty()) == 0xcbf2_9ce4_8422_2325,
{
    assert(words.push(w).drop_last() =~= words);
}

/// A ship is launched unhurt, in the middle of the sector, with nothing to its name.
pub proof fn law_launch(name: Seq<char>, hue: u32)
    ensures
        ({
            let s = new_ship(name, hue);
            &&& s.name == name && s.hue == hue
            &&& 2 * s.body.x == SECTOR_SIZE && 2 * s.body.y == SECTOR_SIZE
            &&& s.body.hp == s.body.max_hp && s.body.energy == s.body.max_energy && s.body.alive
            &&& s.body.minerals == 0 && s.body.kills == 0 && s.body.guns == 1
            &&& s.effects.len() == 0 && s.weapons.len() == 0 && s.tech.len() == 0 && s.owner is None
            &&& s.body.role == ShipRole::Player
            &&& s.weapon.len() == 0 && s.body.shield == 0 && s.body.max_shield == 0
            &&& s.input_ack == 0 && s.last_input_seq == 0
        }),
{
}

/// A scene that is empty holds nothing of any kind, and a flag is one bit in the digest.
pub proof fn law_nothing_is_in_an_empty_scene(s: Scene, b: bool)
    requires
        s.is_empty(),
    ensures
        s.bullets@.len() + s.beams@.len() + s.explosions@.len() + s.debris@.len() + s.loot@.len() + s.pickups@.len()
            + s.factions@.len() + s.depleted@.len() + s.kill_feed@.len() == 0,
        flag_word(b) + flag_word(!b) == 1,
        b ==> flag_word(b) == 1,
{
}

/// The digest reads orders in full: two commands with the same words are the same command, and two entries with the same words are of the same tick
/// and of the same kind.
pub proof fn law_words_tell_orders_apart(a: FactionCommand, b: FactionCommand, e: EntryView, f: EntryView)
    ensures
        command_words(a) == command_words(b) ==> a == b,
        entry_words(e) == entry_words(f) ==> {
            &&& e.tick == f.tick
            &&& e.order is Join <==> f.order is Join
            &&& e.order is Intent <==> f.order is Intent
            &&& e.order is BuyTech <==> f.order is BuyTech
            &&& e.order is SelectWeapon <==> f.order is SelectWeapon
            &&& e.order is Command <==> f.order is Command
            &&& e.order is Respawn <==> f.order is Respawn
            &&& e.order is Leave <==> f.order is Leave
            &&& entry_words(e)[2] == entry_words(f)[2]
        },
        e.order matches OrderView::Intent { id, thrust, turn, fire, aim, name, hue } ==> entry_words(e)[2]
            == text_word(id) && entry_words(e)[3] == flag_word(thrust) && entry_words(e)[4] == int_word(turn)
            && entry_words(e)[5] == flag_word(fire) && entry_words(e)[6] == hue && entry_words(e).len() == 11,
        e.order matches OrderView::Join { id, name, hue } ==> entry_words(e)[2] == text_word(id)
            && entry_words(e)[3] == text_word(name) && entry_words(e)[4] == hue,
        e.order matches OrderView::BuyTech { id, node } ==> entry_words(e)[2] == text_word(id)
            && entry_words(e)[3] == text_word(node),
        e.order matches OrderView::Command { id, command } ==> entry_words(e)[2] == text_word(id)
            && entry_words(e).subrange(3, 6) == command_words(command),
{
    let (x, y) = (command_words(a), command_words(b));
    if x == y {
        assert(x[0] == y[0] && x[1] == y[1] && x[2] == y[2]);
    }
    let (v, w) = (entry_words(e), entry_words(f));
    assert(v[0] == e.tick && w[0] == f.tick);
    assert(v[1] <= 6 && w[1] <= 6);
    if let OrderView::Command { id, command } = e.order {
        assert(v.subrange(3, 6) =~= command_words(command));
    }
}

} // verus!
