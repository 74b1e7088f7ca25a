//! Between the wire and the simulation: client messages become orders, and a sector becomes a
//! snapshot, whole or cut to a client's viewport.
use vstd::prelude::*;
use vstd::string::*;

use crate::aabb::{all_places, grown, growable, law_query_is_complete, overlaps, Aabb, AabbTree};
use crate::hash::{fnv1a, fnv32_from, FNV32_BASIS};
use crate::order::{ascending, lemma_ascending_unique, views, Ordered};
use crate::replication::clone_texts;
use crate::sim::{
    noted, present, ship_models, with_ship, with_tech, with_weapon, Body, Faction, FactionCommand,
    Kill, Order, OrderView, Pickup, Ship, ShipModel, ShipRole, Sim, SimModel, ROCK_CELL, SECTOR_SIZE,
    SHIP_R,
};
use crate::sort::{lemma_filter_push, sort_stably, stably_sorted, Ranked};
use crate::text::{lemma_text_order, same_text, text_below, text_less};
use crate::wire::{
    text_of, BeamView, BulletView, ClientMsg, ClientPacket, DebrisView, ExplosionView, FactionView, KillView,
    LootView, MsgView, PickupView, RockCell, SeqMsg, ShipView, Snapshot, SnapshotTag,
};

verus! {

pub const PICKUP_REPAIR: u8 = 0;

pub const PICKUP_SHIELD: u8 = 1;

pub const PICKUP_ENERGY: u8 = 2;

pub const PICKUP_OVERCHARGE: u8 = 3;

/// How far beyond its edges a viewport is served.
pub const VIEW_PAD: i32 = 64;

/// The hue of a player, from their id alone.
pub open spec fn hue_of(id: Seq<char>) -> u32 {
    fnv32_from(FNV32_BASIS, vstd::utf8::encode_utf8(id)) % 360
}

/// A stable hue in `0..360` that a client cannot choose.
pub fn hue_for(node_id: &str) -> (h: u32)
    ensures
        h == hue_of(node_id@),
        h < 360,
{
    fnv1a(node_id) % 360
}

/// The hue of a kind of power-up: green, blue, cyan, gold, and amber for anything else.
pub open spec fn pickup_hue_of(kind: u8) -> u32 {
    if kind == PICKUP_REPAIR {
        130
    } else if kind == PICKUP_SHIELD {
        210
    } else if kind == PICKUP_ENERGY {
        185
    } else if kind == PICKUP_OVERCHARGE {
        45
    } else {
        40
    }
}

pub fn pickup_hue(kind: u8) -> (h: u32)
    ensures
        h == pickup_hue_of(kind),
{
    if kind == PICKUP_REPAIR {
        130
    } else if kind == PICKUP_SHIELD {
        210
    } else if kind == PICKUP_ENERGY {
        185
    } else if kind == PICKUP_OVERCHARGE {
        45
    } else {
        40
    }
}

/// The tech node that a build token stands for. Three older tokens have a node of another name.
pub open spec fn tech_node_of(token: Seq<char>) -> Seq<char> {
    if token == "hull"@ {
        "hull-1"@
    } else if token == "speed"@ || token == "thruster"@ {
        "thruster-1"@
    } else if token == "gun"@ {
        "twin-guns"@
    } else {
        token
    }
}

pub fn tech_node_for(token: &str) -> (node: &str)
    ensures
        node@ == tech_node_of(token@),
{
    if same_text(token, "hull") {
        "hull-1"
    } else if same_text(token, "speed") || same_text(token, "thruster") {
        "thruster-1"
    } else if same_text(token, "gun") {
        "twin-guns"
    } else {
        token
    }
}

/// The fleet command that an order and its coordinates spell; an attack move needs both of them.
pub open spec fn command_of(
    order: Seq<char>,
    x: Option<i32>,
    y: Option<i32>,
) -> Option<FactionCommand> {
    if order == "defend"@ {
        Some(FactionCommand::Defend)
    } else if order == "follow"@ {
        Some(FactionCommand::Follow)
    } else if order == "mine"@ {
        Some(FactionCommand::Mine)
    } else if order == "hold"@ {
        Some(FactionCommand::Hold)
    } else if order == "attack"@ || order == "attacknearest"@ || order == "attack_nearest"@ {
        Some(FactionCommand::AttackNearest)
    } else if order == "attackmove"@ || order == "attack_move"@ {
        match (x, y) {
            (Some(x), Some(y)) => Some(FactionCommand::AttackMove { x, y }),
            _ => None,
        }
    } else {
        None
    }
}

pub fn command_for(order: &str, x: Option<i32>, y: Option<i32>) -> (c: Option<FactionCommand>)
    ensures
        c == command_of(order@, x, y),
{
    if same_text(order, "defend") {
        Some(FactionCommand::Defend)
    } else if same_text(order, "follow") {
        Some(FactionCommand::Follow)
    } else if same_text(order, "mine") {
        Some(FactionCommand::Mine)
    } else if same_text(order, "hold") {
        Some(FactionCommand::Hold)
    } else if same_text(order, "attack") || same_text(order, "attacknearest") || same_text(
        order,
        "attack_nearest",
    ) {
        Some(FactionCommand::AttackNearest)
    } else if same_text(order, "attackmove") || same_text(order, "attack_move") {
        match (x, y) {
            (Some(x), Some(y)) => Some(FactionCommand::AttackMove { x, y }),
            _ => None,
        }
    } else {
        None
    }
}

pub open spec fn role_text(r: ShipRole) -> Seq<char> {
    match r {
        ShipRole::Player => "player"@,
        ShipRole::Drone => "drone"@,
        ShipRole::Fighter => "fighter"@,
        ShipRole::Hauler => "hauler"@,
    }
}

pub fn role_str(r: ShipRole) -> (s: &'static str)
    ensures
        s@ == role_text(r),
{
    match r {
        ShipRole::Player => "player",
        ShipRole::Drone => "drone",
        ShipRole::Fighter => "fighter",
        ShipRole::Hauler => "hauler",
    }
}

pub open spec fn command_text(c: FactionCommand) -> Seq<char> {
    match c {
        FactionCommand::Defend => "defend"@,
        FactionCommand::Follow => "follow"@,
        FactionCommand::Mine => "mine"@,
        FactionCommand::Hold => "hold"@,
        FactionCommand::AttackNearest => "attack_nearest"@,
        FactionCommand::AttackMove { x, y } => "attack_move"@,
    }
}

pub fn command_str(c: FactionCommand) -> (s: &'static str)
    ensures
        s@ == command_text(c),
{
    match c {
        FactionCommand::Defend => "defend",
        FactionCommand::Follow => "follow",
        FactionCommand::Mine => "mine",
        FactionCommand::Hold => "hold",
        FactionCommand::AttackNearest => "attack_nearest",
        FactionCommand::AttackMove { x, y } => "attack_move",
    }
}

/// A sector once a message of a player has been applied.
pub open spec fn applied(s: SimModel, from: Seq<char>, msg: MsgView) -> SimModel {
    let hue = hue_of(from);
    match msg {
        MsgView::Join { name, cap } => noted(
            present(s, from, name, hue),
            OrderView::Join { id: from, name, hue },
        ),
        MsgView::Input { thrust, turn, fire, aim, name } => noted(
            present(
                s,
                from,
                match name {
                    Some(n) => n,
                    None => Seq::empty(),
                },
                hue,
            ),
            OrderView::Intent { id: from, thrust, turn, fire, aim, name, hue },
        ),
        MsgView::Build { kind } => noted(
            with_tech(s, from, tech_node_of(kind)),
            OrderView::BuyTech { id: from, node: tech_node_of(kind) },
        ),
        MsgView::Weapon { id } => noted(
            with_weapon(s, from, id),
            OrderView::SelectWeapon { id: from, weapon: id },
        ),
        MsgView::Command { order, x, y } => match command_of(order, x, y) {
            Some(command) => noted(s, OrderView::Command { id: from, command }),
            None => s,
        },
        MsgView::Respawn => noted(s, OrderView::Respawn { id: from }),
        MsgView::Bye => noted(
            SimModel { ships: s.ships.remove(from), ..s },
            OrderView::Leave { id: from },
        ),
    }
}

/// Applies a message of the player `from`, whose id the mesh has verified. Returns whether it was a
/// goodbye.
pub fn apply_client_msg(sim: &mut Sim, from: &str, msg: ClientMsg) -> (bye: bool)
    requires
        old(sim).wf(),
    ensures
        final(sim).wf(),
        final(sim)@ == applied(old(sim)@, from@, msg@),
        bye == (msg is Bye),
        final(sim).scene == old(sim).scene,
{
    let hue: u32 = hue_for(from);
    match msg {
        ClientMsg::Join { name, cap } => {
            sim.join(from, name.as_str(), hue);
        },
        ClientMsg::Input { thrust, turn, fire, aim, name } => {
            sim.apply_intent(from, thrust, turn, fire, aim, name, hue);
        },
        ClientMsg::Build { kind } => {
            sim.buy_tech(from, tech_node_for(kind.as_str()));
        },
        ClientMsg::Weapon { id } => {
            sim.select_weapon(from, id.as_str());
        },
        ClientMsg::Command { order, x, y } => {
            if let Some(command) = command_for(order.as_str(), x, y) {
                sim.note(Order::Command { id: from.to_string(), command });
            }
        },
        ClientMsg::Respawn => {
            sim.note(Order::Respawn { id: from.to_string() });
        },
        ClientMsg::Bye => {
            sim.leave(from);
            return true;
        },
    }
    false
}

/// A message of a sequence, with texts in place of strings.
pub struct SeqMsgView {
    pub seq: u64,
    pub msg: MsgView,
}

impl View for SeqMsg {
    type V = SeqMsgView;

    open spec fn view(&self) -> SeqMsgView {
        SeqMsgView { seq: self.seq, msg: self.msg@ }
    }
}

impl Ranked for SeqMsg {
    open spec fn before(&self, other: &Self) -> bool {
        self.seq < other.seq
    }

    fn goes_before(&self, other: &Self) -> (r: bool) {
        self.seq < other.seq
    }

    proof fn before_asymmetric(a: &Self, b: &Self) {
    }

    proof fn before_negatively_transitive(a: &Self, b: &Self, c: &Self) {
    }
}

/// The last action of a player that was applied.
pub open spec fn ack_of(s: SimModel, from: Seq<char>) -> u64 {
    if s.ships.contains_key(from) {
        s.ships[from].input_ack
    } else {
        0
    }
}

/// The sector with the player's acknowledgement moved on, where they have a ship.
pub open spec fn acked(s: SimModel, from: Seq<char>, seq: u64) -> SimModel {
    if s.ships.contains_key(from) {
        with_ship(s, from, ShipModel { input_ack: seq, ..s.ships[from] })
    } else {
        s
    }
}

/// The sector after the reliable actions, and whether the player has said goodbye. An action that
/// was applied before is skipped, the next one in sequence is applied, and a gap ends it.
pub open spec fn after_actions(
    s: SimModel,
    from: Seq<char>,
    actions: Seq<SeqMsgView>,
) -> (SimModel, bool)
    decreases actions.len(),
{
    if actions.len() == 0 {
        (s, false)
    } else {
        let a = actions[0];
        let rest = actions.subrange(1, actions.len() as int);
        if a.seq <= ack_of(s, from) {
            after_actions(s, from, rest)
        } else if a.seq != ack_of(s, from) + 1 {
            (s, false)
        } else {
            let next = acked(applied(s, from, a.msg), from, a.seq);
            if a.msg is Bye {
                (next, true)
            } else {
                after_actions(next, from, rest)
            }
        }
    }
}

/// A flight input counts when it is newer than the last one, when it carries no number, or when the
/// player has no ship yet.
pub open spec fn is_fresh(s: SimModel, from: Seq<char>, input_seq: u64) -> bool {
    input_seq == 0 || (s.ships.contains_key(from) ==> input_seq > s.ships[from].last_input_seq)
}

/// The sector after the flight input.
pub open spec fn after_input(
    s: SimModel,
    from: Seq<char>,
    input: Option<MsgView>,
    input_seq: u64,
) -> SimModel {
    match input {
        Some(msg) => if msg is Input && is_fresh(s, from, input_seq) {
            let flown = applied(s, from, msg);
            with_ship(
                flown,
                from,
                ShipModel { last_input_seq: input_seq, ..flown.ships[from] },
            )
        } else {
            s
        },
        None => s,
    }
}

pub open spec fn msg_of(m: Option<ClientMsg>) -> Option<MsgView> {
    match m {
        Some(m) => Some(m@),
        None => None,
    }
}

fn read_ack(sim: &Sim, key: &String) -> (ack: u64)
    requires
        sim.wf(),
    ensures
        ack == ack_of(sim@, key@),
{
    match sim.ships.get(key) {
        Some(s) => s.input_ack,
        None => 0,
    }
}

fn write_ack(sim: &mut Sim, key: &String, seq: u64)
    requires
        old(sim).wf(),
    ensures
        final(sim).wf(),
        final(sim)@ == acked(old(sim)@, key@, seq),
        final(sim).scene == old(sim).scene,
{
    let ghost before = sim@;
    if let Some(s) = sim.ships.get_mut(key) {
        s.input_ack = seq;
    }
    proof {
        let after = acked(before, key@, seq);
        assert(ship_models(sim.ships@) =~= after.ships);
        assert(sim@ =~= after);
    }
}

fn write_input_seq(sim: &mut Sim, key: &String, seq: u64)
    requires
        old(sim).wf(),
        old(sim)@.ships.contains_key(key@),
    ensures
        final(sim).wf(),
        final(sim)@ == with_ship(
            old(sim)@,
            key@,
            ShipModel { last_input_seq: seq, ..old(sim)@.ships[key@] },
        ),
        final(sim).scene == old(sim).scene,
{
    let ghost before = sim@;
    if let Some(s) = sim.ships.get_mut(key) {
        s.last_input_seq = seq;
    }
    proof {
        let after = with_ship(
            before,
            key@,
            ShipModel { last_input_seq: seq, ..before.ships[key@] },
        );
        assert(ship_models(sim.ships@) =~= after.ships);
        assert(sim@ =~= after);
    }
}

/// Applies a packet of the player `from`: first the actions that must arrive, in sequence and each
/// at most once, then the newest flight input. Returns whether a goodbye was applied.
pub fn apply_client_packet(sim: &mut Sim, from: &str, pkt: ClientPacket) -> (bye: bool)
    requires
        old(sim).wf(),
    ensures
        final(sim).wf(),
        ({
            let (acted, said_bye) = after_actions(
                old(sim)@,
                from@,
                views(stably_sorted(pkt.reliable@)),
            );
            &&& final(sim)@ == after_input(acted, from@, msg_of(pkt.input), pkt.input_seq)
            &&& bye == said_bye
        }),
        final(sim).scene == old(sim).scene,
{
    let key: String = from.to_string();
    let mut said_bye: bool = false;
    let mut queue: Vec<SeqMsg> = sort_stably(pkt.reliable);
    let ghost start = sim@;
    let ghost scene = sim.scene;
    let ghost actions = views(queue@);
    let ghost target = after_actions(start, from@, actions);
    while queue.len() > 0
        invariant_except_break
            sim.wf(),
            sim.scene == scene,
            key@ == from@,
            !said_bye,
            after_actions(sim@, from@, views(queue@)) == target,
        ensures
            sim.wf(),
            sim.scene == scene,
            (sim@, said_bye) == target,
        decreases queue@.len(),
    {
        let ghost before = views(queue@);
        let sm: SeqMsg = queue.remove(0);
        proof {
            assert(before[0] == sm@);
            assert(views(queue@) =~= before.subrange(1, before.len() as int));
        }
        let ack: u64 = read_ack(sim, &key);
        if sm.seq > ack {
            if sm.seq != ack + 1 {
                break ;
            }
            let seq: u64 = sm.seq;
            let goodbye: bool = apply_client_msg(sim, from, sm.msg);
            write_ack(sim, &key, seq);
            if goodbye {
                said_bye = true;
                break ;
            }
        }
    }
    let fresh: bool = pkt.input_seq == 0 || match sim.ships.get(&key) {
        Some(s) => pkt.input_seq > s.last_input_seq,
        None => true,
    };
    if let Some(msg) = pkt.input {
        if let ClientMsg::Input { thrust, turn, fire, aim, name } = msg {
            if fresh {
                let _ = apply_client_msg(
                    sim,
                    from,
                    ClientMsg::Input { thrust, turn, fire, aim, name },
                );
                write_input_seq(sim, &key, pkt.input_seq);
            }
        }
    }
    said_bye
}

/// Actions that were all applied before change nothing: a client may send them again.
pub proof fn law_resend_is_harmless(s: SimModel, from: Seq<char>, actions: Seq<SeqMsgView>)
    requires
        forall|i: int| 0 <= i < actions.len() ==> (#[trigger] actions[i]).seq <= ack_of(s, from),
    ensures
        after_actions(s, from, actions) == (s, false),
    decreases actions.len(),
{
    if actions.len() > 0 {
        let rest = actions.subrange(1, actions.len() as int);
        assert(actions[0].seq <= ack_of(s, from));
        assert forall|i: int| 0 <= i < rest.len() implies (#[trigger] rest[i]).seq <= ack_of(
            s,
            from,
        ) by {
            assert(rest[i] == actions[i + 1]);
        }
        law_resend_is_harmless(s, from, rest);
    }
}

/// An acknowledgement never goes back while the player stays, so no action is applied twice.
pub proof fn law_ack_never_goes_back(s: SimModel, from: Seq<char>, actions: Seq<SeqMsgView>)
    ensures
        ({
            let (after, bye) = after_actions(s, from, actions);
            bye || ack_of(s, from) <= ack_of(after, from)
        }),
    decreases actions.len(),
{
    if actions.len() > 0 {
        let a = actions[0];
        let rest = actions.subrange(1, actions.len() as int);
        if a.seq <= ack_of(s, from) {
            law_ack_never_goes_back(s, from, rest);
        } else if a.seq == ack_of(s, from) + 1 && !(a.msg is Bye) {
            let next = acked(applied(s, from, a.msg), from, a.seq);
            law_ack_never_goes_back(next, from, rest);
            lemma_ack_after(s, from, a.msg);
        }
    }
}

/// A message other than a goodbye leaves the acknowledgement where it was.
proof fn lemma_ack_after(s: SimModel, from: Seq<char>, msg: MsgView)
    requires
        !(msg is Bye),
    ensures
        ack_of(applied(s, from, msg), from) == ack_of(s, from),
{
}

/// How many living ships of the roster belong to a player's fleet.
pub open spec fn fleet_of(ships: Seq<Ship>, owner: Seq<char>) -> nat
    decreases ships.len(),
{
    if ships.len() == 0 {
        0
    } else {
        fleet_of(ships.drop_last(), owner) + (if text_of(ships.last().owner) == Some(owner)
            && ships.last().body.alive {
            1nat
        } else {
            0nat
        })
    }
}

/// The view shows the faction.
pub open spec fn shows_faction(v: FactionView, f: Faction, ships: Seq<Ship>) -> bool {
    &&& v.owner@ == f.owner@
    &&& v.minerals == f.minerals
    &&& v.energy == f.energy
    &&& v.alloys == f.alloys
    &&& v.buildings == f.buildings
    &&& v.drones == f.drones
    &&& v.fighters == f.fighters
    &&& v.haulers == f.haulers
    &&& v.fleet_alive == fleet_of(ships, f.owner@)
    &&& v.power == f.power
    &&& v.command@ == command_text(f.command)
}

impl Ranked for FactionView {
    open spec fn before(&self, other: &Self) -> bool {
        text_below(self.owner@, other.owner@)
    }

    fn goes_before(&self, other: &Self) -> (r: bool) {
        text_less(self.owner.as_str(), other.owner.as_str())
    }

    proof fn before_asymmetric(a: &Self, b: &Self) {
        lemma_text_order(a.owner@, b.owner@, a.owner@);
    }

    proof fn before_negatively_transitive(a: &Self, b: &Self, c: &Self) {
        lemma_text_order(a.owner@, b.owner@, c.owner@);
        lemma_text_order(a.owner@, c.owner@, b.owner@);
        lemma_text_order(b.owner@, a.owner@, c.owner@);
        lemma_text_order(b.owner@, c.owner@, a.owner@);
        lemma_text_order(c.owner@, b.owner@, a.owner@);
        lemma_text_order(c.owner@, a.owner@, b.owner@);
    }
}

/// The views of the factions, one for each, in the order of their owners.
pub open spec fn are_faction_views(
    out: Seq<FactionView>,
    factions: Seq<Faction>,
    ships: Seq<Ship>,
) -> bool {
    exists|listed: Seq<FactionView>|
        {
            &&& listed.len() == factions.len()
            &&& forall|i: int|
                0 <= i < listed.len() ==> shows_faction(
                    #[trigger] listed[i],
                    factions[i],
                    ships,
                )
            &&& out == #[trigger] stably_sorted(listed)
        }
}

fn fleet_alive(ships: &Vec<Ship>, owner: &str) -> (n: u32)
    requires
        ships@.len() <= u32::MAX,
    ensures
        n == fleet_of(ships@, owner@),
{
    let mut n: u32 = 0;
    let mut i: usize = 0;
    assert(ships@.subrange(0, 0) =~= Seq::<Ship>::empty());
    while i < ships.len()
        invariant
            i <= ships@.len() <= u32::MAX,
            n == fleet_of(ships@.subrange(0, i as int), owner@),
            n <= i,
        decreases ships@.len() - i,
    {
        proof {
            assert(ships@.subrange(0, i + 1).drop_last() =~= ships@.subrange(0, i as int));
        }
        let theirs: bool = match &ships[i].owner {
            Some(o) => same_text(o.as_str(), owner),
            None => false,
        };
        if theirs && ships[i].body.alive {
            n = n + 1;
        }
        i = i + 1;
    }
    assert(ships@.subrange(0, i as int) =~= ships@);
    n
}

/// The economy and the living fleet of each faction, in the order of their owners.
pub fn faction_views(sim: &Sim) -> (out: Vec<FactionView>)
    requires
        sim.wf(),
        sim.ships.value_order().len() <= u32::MAX,
    ensures
        are_faction_views(out@, sim.scene.factions@, sim.ships.value_order()),
{
    let ships = sim.ships.values();
    let factions = &sim.scene.factions;
    let mut listed: Vec<FactionView> = Vec::new();
    let mut i: usize = 0;
    while i < factions.len()
        invariant
            i <= factions@.len(),
            ships@ == sim.ships.value_order(),
            ships@.len() <= u32::MAX,
            factions@ == sim.scene.factions@,
            listed@.len() == i,
            forall|j: int|
                0 <= j < i ==> shows_faction(#[trigger] listed@[j], factions@[j], ships@),
        decreases factions@.len() - i,
    {
        let f = &factions[i];
        listed.push(
            FactionView {
                owner: f.owner.clone(),
                minerals: f.minerals,
                energy: f.energy,
                alloys: f.alloys,
                buildings: f.buildings,
                drones: f.drones,
                fighters: f.fighters,
                haulers: f.haulers,
                fleet_alive: fleet_alive(ships, f.owner.as_str()),
                power: f.power,
                command: command_str(f.command).to_string(),
            },
        );
        i = i + 1;
    }
    sort_stably(listed)
}

/// A coordinate held to the sector.
pub open spec fn in_sector(v: i32) -> i32 {
    if v < 0 {
        0
    } else if v > SECTOR_SIZE {
        SECTOR_SIZE
    } else {
        v
    }
}

fn clamp_to_sector(v: i32) -> (r: i32)
    ensures
        r == in_sector(v),
{
    if v < 0 {
        0
    } else if v > SECTOR_SIZE {
        SECTOR_SIZE
    } else {
        v
    }
}

/// The codes of the effects that still last, among the first `n`.
pub open spec fn active_effects(effects: Seq<u32>, n: nat) -> Seq<u8>
    decreases n,
{
    if n == 0 {
        Seq::empty()
    } else {
        let rest = active_effects(effects, (n - 1) as nat);
        if effects[n - 1] > 0 {
            rest.push((n - 1) as u8)
        } else {
            rest
        }
    }
}

/// The view shows the ship.
pub open spec fn shows_ship(v: ShipView, id: Seq<char>, s: ShipModel) -> bool {
    let b = s.body;
    &&& v.id@ == id
    &&& v.name@ == s.name
    &&& v.hue == s.hue
    &&& v.x == in_sector(b.x)
    &&& v.y == in_sector(b.y)
    &&& v.a == b.a
    &&& v.hp == b.hp
    &&& v.max_hp == b.max_hp
    &&& v.shield == b.shield
    &&& v.max_shield == b.max_shield
    &&& v.energy == b.energy
    &&& v.max_energy == b.max_energy
    &&& v.effects@ == active_effects(s.effects, s.effects.len())
    &&& v.input_ack == s.input_ack
    &&& v.minerals == b.minerals
    &&& v.kills == b.kills
    &&& v.guns == b.guns
    &&& v.weapon@ == s.weapon
    &&& views(v.weapons@) == s.weapons
    &&& text_of(v.owner) == s.owner
    &&& v.role@ == role_text(b.role)
    &&& v.alive == b.alive
}

/// A ship as clients see it: held to the sector, with the effects that still last.
pub fn ship_view(id: &str, s: &Ship) -> (v: ShipView)
    ensures
        shows_ship(v, id@, s@),
{
    let b: Body = s.body;
    let mut effects: Vec<u8> = Vec::new();
    let mut i: usize = 0;
    while i < s.effects.len()
        invariant
            i <= s.effects@.len(),
            effects@ == active_effects(s.effects@, i as nat),
        decreases s.effects@.len() - i,
    {
        if s.effects[i] > 0 {
            effects.push(i as u8);
        }
        i = i + 1;
    }
    let owner: Option<String> = match &s.owner {
        Some(o) => Some(o.clone()),
        None => None,
    };
    ShipView {
        id: id.to_string(),
        name: s.name.clone(),
        hue: s.hue,
        x: clamp_to_sector(b.x),
        y: clamp_to_sector(b.y),
        a: b.a,
        hp: b.hp,
        max_hp: b.max_hp,
        shield: b.shield,
        max_shield: b.max_shield,
        energy: b.energy,
        max_energy: b.max_energy,
        effects,
        input_ack: s.input_ack,
        minerals: b.minerals,
        kills: b.kills,
        guns: b.guns,
        weapon: s.weapon.clone(),
        weapons: clone_texts(&s.weapons),
        owner,
        role: role_str(b.role).to_string(),
        alive: b.alive,
    }
}

/// Something with a place in the sector that a viewport may show.
pub trait InView: Copy {
    spec fn seen(&self, view: Aabb) -> bool;

    fn is_seen(&self, view: &Aabb) -> (r: bool)
        ensures
            r == self.seen(*view),
    ;
}

pub open spec fn point_in(x: i32, y: i32, view: Aabb) -> bool {
    view.min_x <= x <= view.max_x && view.min_y <= y <= view.max_y
}

impl InView for BulletView {
    open spec fn seen(&self, view: Aabb) -> bool {
        point_in(self.x, self.y, view)
    }

    fn is_seen(&self, view: &Aabb) -> (r: bool) {
        view.contains_point(self.x, self.y)
    }
}

impl InView for BeamView {
    open spec fn seen(&self, view: Aabb) -> bool {
        let low_x = if self.x0 < self.x1 { self.x0 } else { self.x1 };
        let high_x = if self.x0 < self.x1 { self.x1 } else { self.x0 };
        let low_y = if self.y0 < self.y1 { self.y0 } else { self.y1 };
        let high_y = if self.y0 < self.y1 { self.y1 } else { self.y0 };
        view.min_x <= high_x && view.max_x >= low_x && view.min_y <= high_y && view.max_y >= low_y
    }

    fn is_seen(&self, view: &Aabb) -> (r: bool) {
        view.intersects(&Aabb::new(self.x0, self.y0, self.x1, self.y1))
    }
}

impl InView for ExplosionView {
    open spec fn seen(&self, view: Aabb) -> bool {
        point_in(self.x, self.y, view)
    }

    fn is_seen(&self, view: &Aabb) -> (r: bool) {
        view.contains_point(self.x, self.y)
    }
}

impl InView for DebrisView {
    open spec fn seen(&self, view: Aabb) -> bool {
        point_in(self.x, self.y, view)
    }

    fn is_seen(&self, view: &Aabb) -> (r: bool) {
        view.contains_point(self.x, self.y)
    }
}

impl InView for LootView {
    open spec fn seen(&self, view: Aabb) -> bool {
        point_in(self.x, self.y, view)
    }

    fn is_seen(&self, view: &Aabb) -> (r: bool) {
        view.contains_point(self.x, self.y)
    }
}

impl InView for Pickup {
    open spec fn seen(&self, view: Aabb) -> bool {
        point_in(self.x, self.y, view)
    }

    fn is_seen(&self, view: &Aabb) -> (r: bool) {
        view.contains_point(self.x, self.y)
    }
}

impl InView for RockCell {
    open spec fn seen(&self, view: Aabb) -> bool {
        let (x, y) = (self.cx * ROCK_CELL, self.cy * ROCK_CELL);
        view.min_x <= x + ROCK_CELL && view.max_x >= x && view.min_y <= y + ROCK_CELL && view.max_y
            >= y
    }

    fn is_seen(&self, view: &Aabb) -> (r: bool) {
        let side: i64 = ROCK_CELL as i64;
        let x: i64 = self.cx as i64 * side;
        let y: i64 = self.cy as i64 * side;
        view.min_x as i64 <= x + side && view.max_x as i64 >= x && view.min_y as i64 <= y + side
            && view.max_y as i64 >= y
    }
}

pub open spec fn seen_by<T: InView>(view: Aabb) -> spec_fn(T) -> bool {
    |t: T| t.seen(view)
}

fn visible<T: InView>(items: &Vec<T>, view: &Aabb) -> (r: Vec<T>)
    ensures
        r@ == items@.filter(seen_by(*view)),
{
    let ghost p = seen_by::<T>(*view);
    let mut out: Vec<T> = Vec::new();
    let mut i: usize = 0;
    proof {
        reveal(Seq::filter);
        assert(items@.subrange(0, 0) =~= Seq::<T>::empty());
    }
    while i < items.len()
        invariant
            i <= items@.len(),
            p == seen_by::<T>(*view),
            out@ == items@.subrange(0, i as int).filter(p),
        decreases items@.len() - i,
    {
        let t: T = items[i];
        proof {
            assert(items@.subrange(0, i + 1) =~= items@.subrange(0, i as int).push(t));
            assert(p(t) == t.seen(*view));
            lemma_filter_push(items@.subrange(0, i as int), t, p);
        }
        if t.is_seen(view) {
            out.push(t);
        }
        i = i + 1;
    }
    assert(items@.subrange(0, i as int) =~= items@);
    out
}

fn copied<T: Copy>(items: &Vec<T>) -> (r: Vec<T>)
    ensures
        r@ == items@,
{
    let mut out: Vec<T> = Vec::new();
    let mut i: usize = 0;
    while i < items.len()
        invariant
            i <= items@.len(),
            out@ == items@.subrange(0, i as int),
        decreases items@.len() - i,
    {
        out.push(items[i]);
        i = i + 1;
        assert(out@ =~= items@.subrange(0, i as int));
    }
    assert(items@.subrange(0, i as int) =~= items@);
    out
}

/// A power-up as clients see it.
pub open spec fn shown_pickup() -> spec_fn(Pickup) -> PickupView {
    |p: Pickup| PickupView { x: p.x, y: p.y, hue: pickup_hue_of(p.kind), kind: p.kind }
}

fn pickup_views(items: &Vec<Pickup>) -> (r: Vec<PickupView>)
    ensures
        r@ == items@.map_values(shown_pickup()),
{
    let mut out: Vec<PickupView> = Vec::new();
    let mut i: usize = 0;
    while i < items.len()
        invariant
            i <= items@.len(),
            out@ == items@.subrange(0, i as int).map_values(shown_pickup()),
        decreases items@.len() - i,
    {
        let p: Pickup = items[i];
        out.push(PickupView { x: p.x, y: p.y, hue: pickup_hue(p.kind), kind: p.kind });
        i = i + 1;
        assert(out@ =~= items@.subrange(0, i as int).map_values(shown_pickup()));
    }
    assert(items@.subrange(0, i as int) =~= items@);
    out
}

/// A kill as clients see it.
pub open spec fn shown_kill() -> spec_fn(Kill) -> KillView {
    |k: Kill| KillView { killer: k.killer, victim: k.victim }
}

fn kill_views(items: &Vec<Kill>) -> (r: Vec<KillView>)
    ensures
        r@ == items@.map_values(shown_kill()),
{
    let mut out: Vec<KillView> = Vec::new();
    let mut i: usize = 0;
    while i < items.len()
        invariant
            i <= items@.len(),
            out@ == items@.subrange(0, i as int).map_values(shown_kill()),
        decreases items@.len() - i,
    {
        let k = &items[i];
        out.push(KillView { killer: k.killer.clone(), victim: k.victim.clone() });
        i = i + 1;
        assert(out@ =~= items@.subrange(0, i as int).map_values(shown_kill()));
    }
    assert(items@.subrange(0, i as int) =~= items@);
    out
}

/// The ships at the given places of the roster, as clients see them.
pub open spec fn shows_ships(out: Seq<ShipView>, sim: Sim, places: Seq<usize>) -> bool {
    &&& out.len() == places.len()
    &&& forall|k: int|
        0 <= k < out.len() ==> shows_ship(
            #[trigger] out[k],
            sim.ships.key_order()[places[k] as int]@,
            sim.ships.value_order()[places[k] as int]@,
        )
}

/// What holds of every snapshot of a sector, whole or cut to a viewport.
pub open spec fn is_headed(snap: Snapshot, sim: Sim, sector: Seq<char>, host: Seq<char>, now_ms: u64) -> bool {
    &&& snap.sector@ == sector
    &&& snap.host@ == host
    &&& snap.tick == sim.tick
    &&& snap.mines@.len() == 0
    &&& are_faction_views(snap.factions@, sim.scene.factions@, sim.ships.value_order())
    &&& snap.kills@ == sim.scene.kill_feed@.map_values(shown_kill())
    &&& snap.ruleset == sim.rules
    &&& snap.ts == now_ms
}

/// The snapshot shows the whole sector, the ships in the order of their ids.
pub open spec fn shows_sector(
    snap: Snapshot,
    sim: Sim,
    sector: Seq<char>,
    host: Seq<char>,
    now_ms: u64,
) -> bool {
    &&& is_headed(snap, sim, sector, host, now_ms)
    &&& shows_ships(snap.ships@, sim, all_places(sim.ships.key_order().len()))
    &&& snap.bullets@ == sim.scene.bullets@
    &&& snap.beams@ == sim.scene.beams@
    &&& snap.explosions@ == sim.scene.explosions@
    &&& snap.debris@ == sim.scene.debris@
    &&& snap.loot@ == sim.scene.loot@
    &&& snap.pickups@ == sim.scene.pickups@.map_values(shown_pickup())
    &&& snap.depleted@ == sim.scene.depleted@
}

/// The whole sector as a snapshot.
pub fn build_snapshot(sim: &Sim, sector: &str, host: &str, now_ms: u64) -> (snap: Snapshot)
    requires
        sim.wf(),
        sim.ships.value_order().len() <= u32::MAX,
    ensures
        shows_sector(snap, *sim, sector@, host@, now_ms),
{
    proof {
        sim.ships.lemma_orders();
    }
    let ids = sim.ships.keys();
    let bodies = sim.ships.values();
    let mut ships: Vec<ShipView> = Vec::new();
    let mut i: usize = 0;
    while i < ids.len()
        invariant
            i <= ids@.len(),
            ids@ == sim.ships.key_order(),
            bodies@ == sim.ships.value_order(),
            ids@.len() == bodies@.len(),
            ships@.len() == i,
            forall|k: int|
                0 <= k < i ==> shows_ship(#[trigger] ships@[k], ids@[k]@, bodies@[k]@),
        decreases ids@.len() - i,
    {
        ships.push(ship_view(ids[i].as_str(), &bodies[i]));
        i = i + 1;
    }
    assert(ids.len() == ids@.len());
    Snapshot {
        t: SnapshotTag::St,
        sector: sector.to_string(),
        host: host.to_string(),
        tick: sim.tick,
        ships,
        bullets: copied(&sim.scene.bullets),
        beams: copied(&sim.scene.beams),
        explosions: copied(&sim.scene.explosions),
        debris: copied(&sim.scene.debris),
        loot: copied(&sim.scene.loot),
        mines: Vec::new(),
        pickups: pickup_views(&sim.scene.pickups),
        factions: faction_views(sim),
        depleted: copied(&sim.scene.depleted),
        kills: kill_views(&sim.scene.kill_feed),
        ruleset: sim.rules,
        ts: now_ms,
    }
}

/// Every ship is where a box can be drawn around it.
pub open spec fn on_chart(ships: Seq<Ship>) -> bool {
    forall|i: int|
        0 <= i < ships.len() ==> {
            let b = (#[trigger] ships[i]).body;
            &&& i32::MIN + SHIP_R <= b.x <= i32::MAX - SHIP_R
            &&& i32::MIN + SHIP_R <= b.y <= i32::MAX - SHIP_R
        }
}

/// The box around a ship.
pub open spec fn ship_box(s: Ship) -> Aabb {
    Aabb {
        min_x: (s.body.x - SHIP_R) as i32,
        min_y: (s.body.y - SHIP_R) as i32,
        max_x: (s.body.x + SHIP_R) as i32,
        max_y: (s.body.y + SHIP_R) as i32,
    }
}

/// The ship at a place of the roster reaches into the view.
pub open spec fn ship_seen(ships: Seq<Ship>, view: Aabb) -> spec_fn(usize) -> bool {
    |i: usize| overlaps(ship_box(ships[i as int]), view)
}

/// The places of the ships that reach into the view, ascending.
pub open spec fn seen_places(ships: Seq<Ship>, view: Aabb) -> Seq<usize> {
    all_places(ships.len()).filter(ship_seen(ships, view))
}

impl Ordered for usize {
    open spec fn below(a: usize, b: usize) -> bool {
        a < b
    }

    fn is_below(&self, other: &Self) -> (r: bool) {
        *self < *other
    }

    proof fn below_irreflexive(a: usize) {
    }

    proof fn below_transitive(a: usize, b: usize, c: usize) {
    }

    proof fn below_total(a: usize, b: usize) {
    }
}

impl Ranked for usize {
    open spec fn before(&self, other: &Self) -> bool {
        *self < *other
    }

    fn goes_before(&self, other: &Self) -> (r: bool) {
        *self < *other
    }

    proof fn before_asymmetric(a: &Self, b: &Self) {
    }

    proof fn before_negatively_transitive(a: &Self, b: &Self, c: &Self) {
    }
}

proof fn lemma_filtered_places(n: nat, p: spec_fn(usize) -> bool)
    requires
        n <= usize::MAX,
    ensures
        ascending(all_places(n).filter(p)),
        forall|i: usize| #[trigger]
            all_places(n).filter(p).contains(i) <==> i < n && p(i),
    decreases n,
{
    reveal(Seq::filter);
    let all = all_places(n);
    if n > 0 {
        let m = (n - 1) as nat;
        lemma_filtered_places(m, p);
        assert(all.drop_last() =~= all_places(m));
        let f1 = all_places(m).filter(p);
        let f = all.filter(p);
        let last = (n - 1) as usize;
        assert(f == (if p(last) {
            f1.push(last)
        } else {
            f1
        }));
        assert forall|i: usize| #[trigger] f.contains(i) <==> i < n && p(i) by {
            assert(f1.contains(i) <==> i < m && p(i));
            if f1.contains(i) {
                let k = choose|k: int| 0 <= k < f1.len() && f1[k] == i;
                assert(f[k] == i);
            }
            if i == last && p(last) {
                assert(f[f1.len() as int] == last);
            }
            if f.contains(i) {
                let k = choose|k: int| 0 <= k < f.len() && f[k] == i;
                if k < f1.len() {
                    assert(f1[k] == i);
                }
            }
        }
        assert forall|a: int, b: int| 0 <= a < b < f.len() implies #[trigger] usize::below(
            f[a]@,
            f[b]@,
        ) by {
            if b < f1.len() {
                crate::order::lemma_ascending_at(f1, a, b);
            } else {
                assert(f1.contains(f1[a]));
            }
        }
    } else {
        assert(all =~= Seq::<usize>::empty());
        assert(all.filter(p) =~= Seq::<usize>::empty());
    }
}

/// Sorted places without duplicates ascend.
proof fn lemma_sorted_places(s: Seq<usize>)
    requires
        s.no_duplicates(),
    ensures
        ascending(stably_sorted(s)),
{
    crate::sort::lemma_stably_sorted(s);
    let t = stably_sorted(s);
    assert(t.no_duplicates()) by {
        s.lemma_multiset_has_no_duplicates();
        assert forall|x: usize| t.to_multiset().contains(x) implies t.to_multiset().count(x)
            == 1 by {
            assert(s.to_multiset().contains(x));
        }
        t.lemma_multiset_has_no_duplicates_conv();
    }
    assert forall|a: int, b: int| 0 <= a < b < t.len() implies #[trigger] usize::below(
        t[a]@,
        t[b]@,
    ) by {
        assert(!t[b].before(&t[a]));
        assert(t[a] != t[b]);
    }
}

/// The places of the ships in a view, found through the tree and put in ascending order.
fn ships_in_view(sim: &Sim, view: &Aabb) -> (r: Vec<usize>)
    requires
        sim.wf(),
        on_chart(sim.ships.value_order()),
    ensures
        r@ == seen_places(sim.ships.value_order(), *view),
{
    let ships = sim.ships.values();
    let ghost all = ships@;
    let mut items: Vec<(Aabb, usize)> = Vec::new();
    let mut i: usize = 0;
    while i < ships.len()
        invariant
            i <= all.len(),
            all == ships@,
            on_chart(all),
            items@.len() == i,
            forall|k: int|
                0 <= k < i ==> (#[trigger] items@[k]).0 == ship_box(all[k]) && items@[k].0.wf(),
        decreases all.len() - i,
    {
        let b: Body = ships[i].body;
        assert(all[i as int].body == b);
        items.push((Aabb::around(b.x, b.y, SHIP_R), i));
        i = i + 1;
    }
    assert(ships.len() == all.len());
    let ghost given = items@;
    let tree = AabbTree::build(Aabb::new(0, 0, SECTOR_SIZE, SECTOR_SIZE), items);
    let found = tree.query_indices(view);
    let ghost places = found@;
    let out = sort_stably(found);
    proof {
        let p = ship_seen(all, *view);
        law_query_is_complete(tree, *view, 0);
        lemma_sorted_places(places);
        lemma_filtered_places(all.len(), p);
        let want = all_places(all.len()).filter(p);
        assert forall|v: usize| #[trigger] views(out@).contains(v) <==> views(want).contains(v) by {
            assert(views(out@) =~= out@);
            assert(views(want) =~= want);
            law_query_is_complete(tree, *view, v);
            crate::sort::lemma_sorted_contains(places, v);
            assert(want.contains(v) <==> v < all.len() && p(v));
            if v < all.len() {
                assert(tree.boxes@[v as int] == given[v as int].0);
                assert(p(v) == overlaps(ship_box(all[v as int]), *view));
            }
        }
        lemma_ascending_unique(out@, want);
        assert(views(out@) =~= out@);
        assert(views(want) =~= want);
    }
    out
}

/// The part of a sector that a client sees: what lies in its viewport or just outside. The cost of
/// a snapshot grows with what is seen, not with what is there. Factions and kills are always
/// included.
pub fn build_snapshot_view(
    sim: &Sim,
    sector: &str,
    host: &str,
    now_ms: u64,
    viewport: Aabb,
) -> (snap: Snapshot)
    requires
        sim.wf(),
        sim.ships.value_order().len() <= u32::MAX,
        on_chart(sim.ships.value_order()),
        growable(viewport, VIEW_PAD as int),
    ensures
        is_headed(snap, *sim, sector@, host@, now_ms),
        ({
            let view = grown(viewport, VIEW_PAD as int);
            &&& shows_ships(snap.ships@, *sim, seen_places(sim.ships.value_order(), view))
            &&& snap.bullets@ == sim.scene.bullets@.filter(seen_by(view))
            &&& snap.beams@ == sim.scene.beams@.filter(seen_by(view))
            &&& snap.explosions@ == sim.scene.explosions@.filter(seen_by(view))
            &&& snap.debris@ == sim.scene.debris@.filter(seen_by(view))
            &&& snap.loot@ == sim.scene.loot@.filter(seen_by(view))
            &&& snap.pickups@ == sim.scene.pickups@.filter(seen_by(view)).map_values(
                shown_pickup(),
            )
            &&& snap.depleted@ == sim.scene.depleted@.filter(seen_by(view))
        }),
{
    let view: Aabb = viewport.expanded(VIEW_PAD);
    proof {
        sim.ships.lemma_orders();
    }
    let places = ships_in_view(sim, &view);
    let ids = sim.ships.keys();
    let bodies = sim.ships.values();
    let ghost p = ship_seen(bodies@, view);
    proof {
        assert(bodies.len() == bodies@.len());
        lemma_filtered_places(bodies@.len(), p);
    }
    let mut ships: Vec<ShipView> = Vec::new();
    let mut i: usize = 0;
    while i < places.len()
        invariant
            i <= places@.len(),
            ids@ == sim.ships.key_order(),
            bodies@ == sim.ships.value_order(),
            ids@.len() == bodies@.len(),
            places@ == seen_places(bodies@, view),
            forall|k: usize| #[trigger] places@.contains(k) ==> k < bodies@.len(),
            ships@.len() == i,
            forall|k: int|
                0 <= k < i ==> shows_ship(
                    #[trigger] ships@[k],
                    ids@[places@[k] as int]@,
                    bodies@[places@[k] as int]@,
                ),
        decreases places@.len() - i,
    {
        let at: usize = places[i];
        assert(places@.contains(at));
        ships.push(ship_view(ids[at].as_str(), &bodies[at]));
        i = i + 1;
    }
    let pickups = visible(&sim.scene.pickups, &view);
    Snapshot {
        t: SnapshotTag::St,
        sector: sector.to_string(),
        host: host.to_string(),
        tick: sim.tick,
        ships,
        bullets: visible(&sim.scene.bullets, &view),
        beams: visible(&sim.scene.beams, &view),
        explosions: visible(&sim.scene.explosions, &view),
        debris: visible(&sim.scene.debris, &view),
        loot: visible(&sim.scene.loot, &view),
        mines: Vec::new(),
        pickups: pickup_views(&pickups),
        factions: faction_views(sim),
        depleted: visible(&sim.scene.depleted, &view),
        kills: kill_views(&sim.scene.kill_feed),
        ruleset: sim.rules,
        ts: now_ms,
    }
}

/// A message touches nobody but its sender: every other ship stays as it is, and so do the sector, its clock, its rules, what is on
/// its way out and what is to be seen. The journal takes note of it at the end, at most once, and of nothing else.
pub proof fn law_messages_touch_only_their_sender(s: SimModel, from: Seq<char>, msg: MsgView, other: Seq<char>)
    requires
        other != from,
    ensures
        ({
            let after = applied(s, from, msg);
            &&& after.ships.contains_key(other) <==> s.ships.contains_key(other)
            &&& s.ships.contains_key(other) ==> after.ships[other] == s.ships[other]
            &&& after.sector == s.sector && after.tick == s.tick && after.rules == s.rules
            &&& after.transit_out == s.transit_out && after.scene == s.scene
            &&& after.journal == s.journal || (after.journal.len() == s.journal.len() + 1
                && after.journal.drop_last() == s.journal && after.journal.last().tick == s.tick)
        }),
{
    let after = applied(s, from, msg);
    if after.journal.len() > s.journal.len() {
        assert(after.journal.drop_last() =~= s.journal);
    }
}

/// Who joins or steers is there: with the ship that they had, or with a new one, unhurt and in the middle of the sector. Who leaves is
/// gone.
pub proof fn law_joining_and_leaving(s: SimModel, from: Seq<char>, msg: MsgView)
    ensures
        msg is Join || msg is Input ==> applied(s, from, msg).ships.contains_key(from),
        (msg is Join || msg is Input) && s.ships.contains_key(from) ==> applied(s, from, msg).ships[from]
            == s.ships[from],
        msg matches MsgView::Join { name, cap } ==> !s.ships.contains_key(from) ==> {
            let ship = applied(s, from, msg).ships[from];
            &&& ship.name == name
            &&& ship.hue < 360
            &&& ship.body.x == 4500 && ship.body.y == 4500
            &&& ship.body.hp == ship.body.max_hp && ship.body.hp > 0 && ship.body.alive
            &&& ship.body.kills == 0 && ship.body.minerals == 0 && ship.owner is None
            &&& ship.input_ack == 0 && ship.last_input_seq == 0
        },
        msg is Bye ==> !applied(s, from, msg).ships.contains_key(from),
        msg is Respawn || msg is Command ==> applied(s, from, msg).ships == s.ships,
{
}

/// What is noted of a message is what it asks for: of whom, and with all that was given. An order that is not understood is not noted.
pub proof fn law_messages_are_noted(s: SimModel, from: Seq<char>, msg: MsgView)
    ensures
        ({
            let j = applied(s, from, msg).journal;
            let note = j.last().order;
            match msg {
                MsgView::Join { name, cap } => j.len() == s.journal.len() + 1 && (note matches OrderView::Join {
                    id,
                    name: n,
                    hue,
                } && id == from && n == name),
                MsgView::Input { thrust, turn, fire, aim, name } => j.len() == s.journal.len() + 1 && (note
                    matches OrderView::Intent {
                    id,
                    thrust: a,
                    turn: b,
                    fire: c,
                    aim: d,
                    name: e,
                    hue,
                } && id == from && a == thrust && b == turn && c == fire && d == aim && e == name),
                MsgView::Build { kind } => j.len() == s.journal.len() + 1 && (note
                    matches OrderView::BuyTech { id, node } && id == from && node == tech_node_of(kind)),
                MsgView::Weapon { id } => j.len() == s.journal.len() + 1 && (note
                    matches OrderView::SelectWeapon { id: who, weapon } && who == from && weapon == id),
                MsgView::Command { order, x, y } => match command_of(order, x, y) {
                    Some(c) => j.len() == s.journal.len() + 1 && (note matches OrderView::Command {
                        id,
                        command,
                    } && id == from && command == c),
                    None => j == s.journal,
                },
                MsgView::Respawn => j.len() == s.journal.len() + 1 && (note matches OrderView::Respawn { id }
                    && id == from),
                MsgView::Bye => j.len() == s.journal.len() + 1 && (note matches OrderView::Leave { id } && id
                    == from),
            }
        }),
{
}

/// Orders are understood by the words that they are told in: every command is told in words that mean it, and an attack on a place needs
/// both of its coordinates.
pub proof fn law_commands_mean_what_they_say(c: FactionCommand, x: i32, y: i32)
    ensures
        !(c is AttackMove) ==> command_of(command_text(c), Some(x), Some(y)) == Some(c) && command_of(
            command_text(c),
            None,
            None,
        ) == Some(c),
        c is AttackMove ==> command_of(command_text(c), Some(x), Some(y)) == Some(
            FactionCommand::AttackMove { x, y },
        ) && command_of(command_text(c), None, Some(y)) is None && command_of(
            command_text(c),
            Some(x),
            None,
        ) is None,
{
    reveal_strlit("defend");
    reveal_strlit("follow");
    reveal_strlit("mine");
    reveal_strlit("hold");
    reveal_strlit("attack");
    reveal_strlit("attacknearest");
    reveal_strlit("attack_nearest");
    reveal_strlit("attackmove");
    reveal_strlit("attack_move");
    assert("defend"@[0] == 'd');
    assert("follow"@[0] == 'f');
    assert("mine"@[0] == 'm');
    assert("hold"@[0] == 'h');
    assert("attack"@.len() == 6);
    assert("attacknearest"@.len() == 13);
    assert("attack_nearest"@.len() == 14);
    assert("attackmove"@.len() == 10);
    assert("attack_move"@.len() == 11);
    assert("attack_move"@[0] == 'a');
    assert("attack_nearest"@[0] == 'a');
}

/// Numbered actions are applied in their order and once: the next one is, one that was applied already is passed over, and one that comes
/// too early waits for those before it.
pub proof fn law_actions_in_sequence(s: SimModel, from: Seq<char>, a: SeqMsgView, rest: Seq<SeqMsgView>)
    requires
        s.ships.contains_key(from),
    ensures
        ({
            let ack = s.ships[from].input_ack;
            let all = seq![a] + rest;
            &&& a.seq <= ack ==> after_actions(s, from, all) == after_actions(s, from, rest)
            &&& a.seq > ack + 1 ==> after_actions(s, from, all) == (s, false)
            &&& a.seq == ack + 1 && rest.len() == 0 && applied(s, from, a.msg).ships.contains_key(from)
                ==> after_actions(s, from, all).0.ships[from].input_ack == a.seq && after_actions(
                s,
                from,
                all,
            ).0.journal == applied(s, from, a.msg).journal
        }),
{
    let all = seq![a] + rest;
    assert(all.subrange(1, all.len() as int) =~= rest);
    assert(all[0] == a);
    if rest.len() == 0 {
        let next = acked(applied(s, from, a.msg), from, a.seq);
        assert(after_actions(next, from, rest) == (next, false));
    }
}

/// Steering is taken as the latest: an input with an older or the same number is passed over, a newer one is flown and its number kept. One
/// without a number is always flown.
pub proof fn law_steering_is_the_latest(s: SimModel, from: Seq<char>, msg: MsgView, n: u64)
    requires
        msg is Input,
        s.ships.contains_key(from),
    ensures
        n > 0 && n <= s.ships[from].last_input_seq ==> after_input(s, from, Some(msg), n) == s,
        n == 0 || n > s.ships[from].last_input_seq ==> after_input(s, from, Some(msg), n).ships[from]
            == (ShipModel { last_input_seq: n, ..applied(s, from, msg).ships[from] }) && after_input(
            s,
            from,
            Some(msg),
            n,
        ).journal == applied(s, from, msg).journal,
        after_input(s, from, None, n) == s,
{
}

/// The living ships of a fleet are counted one by one.
pub proof fn law_fleets_are_counted(ships: Seq<Ship>, s: Ship, owner: Seq<char>)
    ensures
        fleet_of(Seq::empty(), owner) == 0,
        text_of(s.owner) == Some(owner) && s.body.alive ==> fleet_of(ships.push(s), owner) == fleet_of(
            ships,
            owner,
        ) + 1,
        text_of(s.owner) != Some(owner) || !s.body.alive ==> fleet_of(ships.push(s), owner) == fleet_of(
            ships,
            owner,
        ),
{
    assert(ships.push(s).drop_last() =~= ships);
}

/// A client sees the ships whose hull, 14 units around its middle, reaches into the viewport or 64 units around it, on either axis; each once,
/// and in the order of the roster.
pub proof fn law_ships_in_view(ships: Seq<Ship>, viewport: Aabb, i: usize)
    requires
        on_chart(ships),
        growable(viewport, 64),
        i < ships.len() <= usize::MAX,
    ensures
        seen_places(ships, grown(viewport, 64)).contains(i) <==> {
            let b = ships[i as int].body;
            &&& viewport.min_x - 78 <= b.x <= viewport.max_x + 78
            &&& viewport.min_y - 78 <= b.y <= viewport.max_y + 78
        },
{
    let view = grown(viewport, 64);
    let p = ship_seen(ships, view);
    let all = all_places(ships.len());
    assert(all[i as int] == i);
    assert(all.contains(i));
    crate::sort::lemma_filter_holds(all, p, i);
    assert(ships[i as int].body == ships[i as int].body);
}

/// What is a point is seen where it lies in the view, edges included; a beam where the box around it meets the view; a rock where any part of
/// its cell of 120 units does.
pub proof fn law_what_is_in_view(view: Aabb, p: BulletView, b: BeamView, r: RockCell)
    requires
        view.min_x <= view.max_x,
        view.min_y <= view.max_y,
    ensures
        p.seen(view) <==> view.min_x <= p.x <= view.max_x && view.min_y <= p.y <= view.max_y,
        view.min_x <= b.x0 <= view.max_x && view.min_y <= b.y0 <= view.max_y ==> b.seen(view),
        view.min_x <= b.x1 <= view.max_x && view.min_y <= b.y1 <= view.max_y ==> b.seen(view),
        b.x0 < view.min_x && b.x1 < view.min_x || b.x0 > view.max_x && b.x1 > view.max_x || b.y0
            < view.min_y && b.y1 < view.min_y || b.y0 > view.max_y && b.y1 > view.max_y ==> !b.seen(view),
        r.seen(view) <==> view.min_x <= 120 * r.cx + 120 && 120 * r.cx <= view.max_x && view.min_y <= 120
            * r.cy + 120 && 120 * r.cy <= view.max_y,
{
}

/// Debris, loot, pickups and explosions are seen like any point.
pub proof fn law_points_in_view(view: Aabb, e: ExplosionView, d: DebrisView, l: LootView, k: Pickup)
    ensures
        e.seen(view) <==> view.min_x <= e.x <= view.max_x && view.min_y <= e.y <= view.max_y,
        d.seen(view) <==> view.min_x <= d.x <= view.max_x && view.min_y <= d.y <= view.max_y,
        l.seen(view) <==> view.min_x <= l.x <= view.max_x && view.min_y <= l.y <= view.max_y,
        k.seen(view) <==> view.min_x <= k.x <= view.max_x && view.min_y <= k.y <= view.max_y,
{
}

/// A snapshot tells of a ship what it is, each figure under its own name; a place outside of the sector is told as the nearest in it.
pub proof fn law_snapshots_tell_the_truth(v: ShipView, id: Seq<char>, s: ShipModel)
    requires
        shows_ship(v, id, s),
    ensures
        v.id@ == id && v.name@ == s.name && v.hue == s.hue,
        0 <= s.body.x <= 9000 ==> v.x == s.body.x,
        0 <= s.body.y <= 9000 ==> v.y == s.body.y,
        0 <= v.x <= 9000 && 0 <= v.y <= 9000,
        s.body.x < 0 ==> v.x == 0,
        s.body.x > 9000 ==> v.x == 9000,
        s.body.y < 0 ==> v.y == 0,
        s.body.y > 9000 ==> v.y == 9000,
        v.a == s.body.a && v.hp == s.body.hp && v.max_hp == s.body.max_hp,
        v.shield == s.body.shield && v.max_shield == s.body.max_shield,
        v.energy == s.body.energy && v.max_energy == s.body.max_energy,
        v.minerals == s.body.minerals && v.kills == s.body.kills && v.guns == s.body.guns,
        v.alive == s.body.alive && v.input_ack == s.input_ack,
        v.weapon@ == s.weapon && views(v.weapons@) == s.weapons && text_of(v.owner) == s.owner,
{
}

/// A snapshot of a whole sector leaves nothing out: every ship is in it, in the order of their ids, and all that is to be seen.
pub proof fn law_snapshots_are_complete(
    snap: Snapshot,
    sim: Sim,
    sector: Seq<char>,
    host: Seq<char>,
    now_ms: u64,
    i: int,
)
    requires
        shows_sector(snap, sim, sector, host, now_ms),
        0 <= i < sim.ships.key_order().len() <= usize::MAX,
    ensures
        snap.ships@.len() == sim.ships.key_order().len(),
        snap.ships@[i].id@ == sim.ships.key_order()[i]@,
        snap.ships@[i].hp == sim.ships.value_order()[i].body.hp,
        snap.bullets@ == sim.scene.bullets@ && snap.beams@ == sim.scene.beams@,
        snap.explosions@ == sim.scene.explosions@ && snap.debris@ == sim.scene.debris@,
        snap.loot@ == sim.scene.loot@ && snap.depleted@ == sim.scene.depleted@,
        snap.pickups@.len() == sim.scene.pickups@.len() && snap.kills@.len() == sim.scene.kill_feed@.len(),
        snap.tick == sim.tick && snap.ruleset == sim.rules && snap.ts == now_ms,
        snap.sector@ == sector && snap.host@ == host,
{
    assert(all_places(sim.ships.key_order().len())[i] == i as usize);
    assert(shows_ship(
        snap.ships@[i],
        sim.ships.key_order()[i]@,
        sim.ships.value_order()[i]@,
    ));
}

/// The effects that are told are those that still last, by their codes, in ascending order.
pub proof fn law_lasting_effects_are_told(effects: Seq<u32>, n: nat, k: int)
    requires
        n <= effects.len(),
        n <= 256,
        0 <= k < n,
    ensures
        active_effects(effects, n).contains(k as u8) <==> effects[k] > 0,
        active_effects(effects, n).len() <= n,
    decreases n,
{
    let rest = active_effects(effects, (n - 1) as nat);
    let all = active_effects(effects, n);
    lemma_effects_below(effects, (n - 1) as nat);
    if k < n - 1 {
        law_lasting_effects_are_told(effects, (n - 1) as nat, k);
        if rest.contains(k as u8) {
            let i = choose|i: int| 0 <= i < rest.len() && rest[i] == k as u8;
            assert(all[i] == k as u8);
        }
        if all.contains(k as u8) {
            let i = choose|i: int| 0 <= i < all.len() && all[i] == k as u8;
            if i < rest.len() {
                assert(rest[i] == k as u8);
            }
        }
    } else {
        if n > 1 {
            law_lasting_effects_are_told(effects, (n - 1) as nat, 0);
        }
        if effects[k] > 0 {
            assert(all[rest.len() as int] == k as u8);
        } else if all.contains(k as u8) {
            let i = choose|i: int| 0 <= i < all.len() && all[i] == k as u8;
            assert(rest[i] < n - 1);
        }
    }
}

proof fn lemma_effects_below(effects: Seq<u32>, n: nat)
    requires
        n <= effects.len(),
        n <= 256,
    ensures
        forall|i: int|
            0 <= i < active_effects(effects, n).len() ==> (#[trigger] active_effects(effects, n)[i]) < n,
    decreases n,
{
    if n > 0 {
        lemma_effects_below(effects, (n - 1) as nat);
        let rest = active_effects(effects, (n - 1) as nat);
        let all = active_effects(effects, n);
        assert forall|i: int| 0 <= i < all.len() implies (#[trigger] all[i]) < n by {
            if i < rest.len() {
                assert(all[i] == rest[i]);
            }
        }
    }
}

/// Factions are told by their owners' names in order, each figure under its own name.
pub proof fn law_factions_are_told(v: FactionView, f: Faction, ships: Seq<Ship>)
    requires
        shows_faction(v, f, ships),
    ensures
        v.owner@ == f.owner@ && v.minerals == f.minerals && v.energy == f.energy && v.alloys == f.alloys,
        v.buildings == f.buildings && v.drones == f.drones && v.fighters == f.fighters && v.haulers
            == f.haulers,
        v.power == f.power && v.fleet_alive == fleet_of(ships, f.owner@),
{
}

/// Roles are told apart by their words.
pub proof fn law_words_are_distinct(a: ShipRole, b: ShipRole)
    ensures
        role_text(a) == role_text(b) <==> a == b,
{
    reveal_strlit("player");
    reveal_strlit("drone");
    reveal_strlit("fighter");
    reveal_strlit("hauler");
    assert("player"@[0] == 'p');
    assert("drone"@[0] == 'd');
    assert("fighter"@[0] == 'f');
    assert("hauler"@[0] == 'h');
}

/// The factions of a snapshot are all those of the sector, each once, in the order of their owners' names.
pub proof fn law_all_factions_are_told(out: Seq<FactionView>, factions: Seq<Faction>, ships: Seq<Ship>, i: int, j: int)
    requires
        are_faction_views(out, factions, ships),
        0 <= i < j < factions.len(),
    ensures
        out.len() == factions.len(),
        !text_below(out[j].owner@, out[i].owner@),
        exists|k: int| 0 <= k < out.len() && shows_faction(#[trigger] out[k], factions[i], ships),
{
    let listed = choose|listed: Seq<FactionView>|
        {
            &&& listed.len() == factions.len()
            &&& forall|i: int|
                0 <= i < listed.len() ==> shows_faction(#[trigger] listed[i], factions[i], ships)
            &&& out == #[trigger] stably_sorted(listed)
        };
    crate::sort::lemma_stably_sorted(listed);
    assert(!out[j].before(&out[i]));
    assert(listed.contains(listed[i]));
    crate::sort::lemma_sorted_contains(listed, listed[i]);
    let k = choose|k: int| 0 <= k < out.len() && out[k] == listed[i];
    assert(shows_faction(out[k], factions[i], ships));
}

/// A pickup is told where it lies and of what kind it is, a kill by who killed whom.
pub proof fn law_pickups_and_kills(p: Pickup, k: Kill)
    ensures
        shown_pickup()(p).x == p.x && shown_pickup()(p).y == p.y && shown_pickup()(p).kind == p.kind,
        shown_kill()(k).killer == k.killer && shown_kill()(k).victim == k.victim,
        forall|a: u8, b: u8|
            a < 4 && b < 4 && a != b ==> #[trigger] pickup_hue_of(a) != #[trigger] pickup_hue_of(b),
{
}

/// What is asked for under a nickname is a node that is sold, and the name of a node is its own.
pub proof fn law_nicknames(token: Seq<char>)
    ensures
        tech_node_of(tech_node_of(token)) == tech_node_of(token),
        crate::tech::node_of(token) is Some ==> tech_node_of(token) == token,
        tech_node_of(token) != token ==> crate::tech::node_of(tech_node_of(token)) is Some,
{
    reveal_strlit("hull");
    reveal_strlit("hull-1");
    reveal_strlit("speed");
    reveal_strlit("thruster");
    reveal_strlit("thruster-1");
    reveal_strlit("gun");
    reveal_strlit("twin-guns");
    reveal_strlit("tech-railgun");
    reveal_strlit("tech-laser");
    reveal_strlit("tech-missile");
    assert("hull"@.len() == 4 && "hull-1"@.len() == 6 && "speed"@.len() == 5 && "thruster"@.len() == 8);
    assert("thruster-1"@.len() == 10 && "gun"@.len() == 3 && "twin-guns"@.len() == 9);
    assert("tech-railgun"@.len() == 12 && "tech-laser"@.len() == 10 && "tech-missile"@.len() == 12);
    assert("tech-laser"@[1] == 'e' && "thruster-1"@[1] == 'h');
}

} // verus!
