//! What clients send and what hosts broadcast.
use vstd::prelude::*;
use vstd::string::*;


pub mod topics;

verus! {

/// A message of a client. Angles are in thousandths of a radian.
#[derive(Debug, PartialEq)]
#[allow(inconsistent_fields)]
pub enum ClientMsg {
    Join { name: String, cap: Option<String> },
    Input { thrust: bool, turn: i32, fire: bool, aim: Option<i32>, name: Option<String> },
    Build { kind: String },
    Weapon { id: String },
    Command { order: String, x: Option<i32>, y: Option<i32> },
    Respawn,
    Bye,
}

/// A message with texts in place of strings.
#[allow(inconsistent_fields)]
pub enum MsgView {
    Join { name: Seq<char>, cap: Option<Seq<char>> },
    Input { thrust: bool, turn: i32, fire: bool, aim: Option<i32>, name: Option<Seq<char>> },
    Build { kind: Seq<char> },
    Weapon { id: Seq<char> },
    Command { order: Seq<char>, x: Option<i32>, y: Option<i32> },
    Respawn,
    Bye,
}

/// An optional string as an optional text.
pub open spec fn text_of(s: Option<String>) -> Option<Seq<char>> {
    match s {
        Some(t) => Some(t@),
        None => None,
    }
}

impl View for ClientMsg {
    type V = MsgView;

    open spec fn view(&self) -> MsgView {
        match *self {
            ClientMsg::Join { name, cap } => MsgView::Join { name: name@, cap: text_of(cap) },
            ClientMsg::Input { thrust, turn, fire, aim, name } => MsgView::Input {
                thrust,
                turn,
                fire,
                aim,
                name: text_of(name),
            },
            ClientMsg::Build { kind } => MsgView::Build { kind: kind@ },
            ClientMsg::Weapon { id } => MsgView::Weapon { id: id@ },
            ClientMsg::Command { order, x, y } => MsgView::Command { order: order@, x, y },
            ClientMsg::Respawn => MsgView::Respawn,
            ClientMsg::Bye => MsgView::Bye,
        }
    }
}

fn clone_text(s: &Option<String>) -> (r: Option<String>)
    ensures
        r == *s,
{
    match s {
        Some(t) => Some(t.clone()),
        None => None,
    }
}

impl Clone for ClientMsg {
    fn clone(&self) -> (r: Self)
        ensures
            r == *self,
    {
        match self {
            ClientMsg::Join { name, cap } => ClientMsg::Join {
                name: name.clone(),
                cap: clone_text(cap),
            },
            ClientMsg::Input { thrust, turn, fire, aim, name } => ClientMsg::Input {
                thrust: *thrust,
                turn: *turn,
                fire: *fire,
                aim: *aim,
                name: clone_text(name),
            },
            ClientMsg::Build { kind } => ClientMsg::Build { kind: kind.clone() },
            ClientMsg::Weapon { id } => ClientMsg::Weapon { id: id.clone() },
            ClientMsg::Command { order, x, y } => ClientMsg::Command {
                order: order.clone(),
                x: *x,
                y: *y,
            },
            ClientMsg::Respawn => ClientMsg::Respawn,
            ClientMsg::Bye => ClientMsg::Bye,
        }
    }
}

/// A message with its place in the client's sequence.
#[derive(Debug, PartialEq)]
pub struct SeqMsg {
    pub seq: u64,
    pub msg: ClientMsg,
}

/// What a client sends: the actions that must arrive, and the newest flight input.
#[derive(Debug, PartialEq)]
pub struct ClientPacket {
    pub reliable: Vec<SeqMsg>,
    pub input: Option<ClientMsg>,
    pub input_seq: u64,
}

/// The tag of a snapshot.
#[derive(Debug, Clone, Copy, PartialEq, Eq, Structural)]
pub enum SnapshotTag {
    St,
}

/// A ship as clients see it.
#[derive(Debug, PartialEq)]
pub struct ShipView {
    pub id: String,
    pub name: String,
    pub hue: u32,
    pub x: i32,
    pub y: i32,
    /// Heading in hundredths of a radian.
    pub a: i32,
    pub hp: i32,
    pub max_hp: i32,
    pub shield: i32,
    pub max_shield: i32,
    pub energy: i32,
    pub max_energy: i32,
    /// The codes of the effects that are active.
    pub effects: Vec<u8>,
    pub input_ack: u64,
    pub minerals: u32,
    pub kills: u32,
    pub guns: u32,
    pub weapon: String,
    pub weapons: Vec<String>,
    pub owner: Option<String>,
    pub role: String,
    pub alive: bool,
}

#[derive(Debug, Clone, Copy, PartialEq, Eq, Structural)]
pub struct BulletView {
    pub x: i32,
    pub y: i32,
    pub vx: i32,
    pub vy: i32,
    pub hue: u32,
    pub homing: bool,
}

#[derive(Debug, Clone, Copy, PartialEq, Eq, Structural)]
pub struct BeamView {
    pub x0: i32,
    pub y0: i32,
    pub x1: i32,
    pub y1: i32,
    pub hue: u32,
    pub kind: u8,
}

#[derive(Debug, Clone, Copy, PartialEq, Eq, Structural)]
pub struct ExplosionView {
    pub x: i32,
    pub y: i32,
    pub r: i32,
    pub hue: u32,
}

#[derive(Debug, Clone, Copy, PartialEq, Eq, Structural)]
pub struct DebrisView {
    pub x: i32,
    pub y: i32,
    pub a: i32,
    pub r: i32,
}

#[derive(Debug, Clone, Copy, PartialEq, Eq, Structural)]
pub struct LootView {
    pub x: i32,
    pub y: i32,
    pub vx: i32,
    pub vy: i32,
    pub amount: u32,
}

/// A proximity mine. No sector lays any yet.
#[derive(Debug, Clone, Copy, PartialEq, Eq, Structural)]
pub struct MineView {
    pub x: i32,
    pub y: i32,
    pub hue: u32,
}

#[derive(Debug, Clone, Copy, PartialEq, Eq, Structural)]
pub struct PickupView {
    pub x: i32,
    pub y: i32,
    pub hue: u32,
    pub kind: u8,
}

/// A cell of rock by its column and row.
#[derive(Debug, Clone, Copy, PartialEq, Eq, Structural)]
pub struct RockCell {
    pub cx: i32,
    pub cy: i32,
}

/// The economy and the fleet of a faction.
#[derive(Debug, PartialEq)]
pub struct FactionView {
    pub owner: String,
    pub minerals: u32,
    pub energy: u32,
    pub alloys: u32,
    pub buildings: u32,
    pub drones: u32,
    pub fighters: u32,
    pub haulers: u32,
    pub fleet_alive: u32,
    pub power: i64,
    pub command: String,
}

#[derive(Debug, PartialEq)]
pub struct KillView {
    pub killer: String,
    pub victim: String,
}

/// The state of a sector as it is broadcast.
#[derive(Debug, PartialEq)]
pub struct Snapshot {
    pub t: SnapshotTag,
    pub sector: String,
    pub host: String,
    pub tick: u64,
    pub ships: Vec<ShipView>,
    pub bullets: Vec<BulletView>,
    pub beams: Vec<BeamView>,
    pub explosions: Vec<ExplosionView>,
    pub debris: Vec<DebrisView>,
    pub loot: Vec<LootView>,
    pub mines: Vec<MineView>,
    pub pickups: Vec<PickupView>,
    pub factions: Vec<FactionView>,
    /// The rock cells that are mined out.
    pub depleted: Vec<RockCell>,
    pub kills: Vec<KillView>,
    pub ruleset: u64,
    pub ts: u64,
}

} // verus!
