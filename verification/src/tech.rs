//! The tech tree: what a ship can buy with its minerals, and the weapons that it can mount.
//!
//! The prices are the server's. A node is bought once, and a weapon is mounted only when its node has
//! been bought.
use vstd::prelude::*;
use vstd::string::*;

use crate::order::views;
use crate::replication::lists_text;
use crate::sim::{Body, Ship, ShipModel};
use crate::text::same_text;

verus! {

/// What a node gives to a ship.
#[derive(Debug, Clone, Copy, PartialEq, Eq, Structural)]
pub enum Grant {
    /// A stronger hull.
    Hull,
    /// A stronger drive. How fast it flies is a matter of motion, which goes by the nodes of the ship.
    Thrust,
    /// Two guns.
    TwinGuns,
    Railgun,
    Laser,
    Missile,
}

/// A node of the tree: what it gives, and its price in minerals.
#[derive(Debug, Clone, Copy, PartialEq, Eq, Structural)]
pub struct TechNode {
    pub grant: Grant,
    pub price: u32,
}

/// By how much a stronger hull is stronger.
pub const HULL_STEP: i32 = 50;

/// The node of an id.
pub open spec fn node_of(id: Seq<char>) -> Option<TechNode> {
    if id == "hull-1"@ {
        Some(TechNode { grant: Grant::Hull, price: 100 })
    } else if id == "thruster-1"@ {
        Some(TechNode { grant: Grant::Thrust, price: 100 })
    } else if id == "twin-guns"@ {
        Some(TechNode { grant: Grant::TwinGuns, price: 150 })
    } else if id == "tech-railgun"@ {
        Some(TechNode { grant: Grant::Railgun, price: 400 })
    } else if id == "tech-laser"@ {
        Some(TechNode { grant: Grant::Laser, price: 300 })
    } else if id == "tech-missile"@ {
        Some(TechNode { grant: Grant::Missile, price: 250 })
    } else {
        None
    }
}

pub fn tech_node(id: &str) -> (n: Option<TechNode>)
    ensures
        n == node_of(id@),
{
    if same_text(id, "hull-1") {
        Some(TechNode { grant: Grant::Hull, price: 100 })
    } else if same_text(id, "thruster-1") {
        Some(TechNode { grant: Grant::Thrust, price: 100 })
    } else if same_text(id, "twin-guns") {
        Some(TechNode { grant: Grant::TwinGuns, price: 150 })
    } else if same_text(id, "tech-railgun") {
        Some(TechNode { grant: Grant::Railgun, price: 400 })
    } else if same_text(id, "tech-laser") {
        Some(TechNode { grant: Grant::Laser, price: 300 })
    } else if same_text(id, "tech-missile") {
        Some(TechNode { grant: Grant::Missile, price: 250 })
    } else {
        None
    }
}

/// The weapon that a node unlocks.
pub open spec fn weapon_of(g: Grant) -> Option<Seq<char>> {
    match g {
        Grant::Railgun => Some("railgun"@),
        Grant::Laser => Some("laser"@),
        Grant::Missile => Some("missile"@),
        _ => None,
    }
}

fn weapon_name(g: Grant) -> (w: Option<&'static str>)
    ensures
        match w {
            Some(s) => weapon_of(g) == Some(s@),
            None => weapon_of(g) is None,
        },
{
    match g {
        Grant::Railgun => Some("railgun"),
        Grant::Laser => Some("laser"),
        Grant::Missile => Some("missile"),
        _ => None,
    }
}

/// A strength that has grown by a step.
pub open spec fn toughened(v: i32) -> i32 {
    if v > i32::MAX - HULL_STEP {
        i32::MAX
    } else {
        (v + HULL_STEP) as i32
    }
}

fn toughen(v: i32) -> (r: i32)
    ensures
        r == toughened(v),
{
    if v > i32::MAX - HULL_STEP {
        i32::MAX
    } else {
        v + HULL_STEP
    }
}

/// The body of a ship that has paid for a node.
pub open spec fn fitted(b: Body, n: TechNode) -> Body {
    let paid = Body { minerals: (b.minerals - n.price) as u32, ..b };
    match n.grant {
        Grant::Hull => Body { hp: toughened(b.hp), max_hp: toughened(b.max_hp), ..paid },
        Grant::TwinGuns => Body {
            guns: if b.guns < 2 {
                2
            } else {
                b.guns
            },
            ..paid
        },
        _ => paid,
    }
}

/// The node is there to be had, the ship does not have it, and it can pay.
pub open spec fn can_buy(s: ShipModel, node: Seq<char>) -> bool {
    node_of(node) is Some && !s.tech.contains(node) && s.body.minerals >= node_of(node)->0.price
}

/// The ship once it has asked for a node: it has paid and has what the node gives, where it can buy
/// it; else it is as it was.
pub open spec fn bought(s: ShipModel, node: Seq<char>) -> ShipModel {
    if can_buy(s, node) {
        let n = node_of(node)->0;
        ShipModel {
            body: fitted(s.body, n),
            tech: s.tech.push(node),
            weapons: match weapon_of(n.grant) {
                Some(w) => if s.weapons.contains(w) {
                    s.weapons
                } else {
                    s.weapons.push(w)
                },
                None => s.weapons,
            },
            ..s
        }
    } else {
        s
    }
}

/// The ship once it has asked for a weapon: the weapon is mounted where it is unlocked.
pub open spec fn armed(s: ShipModel, weapon: Seq<char>) -> ShipModel {
    if s.weapons.contains(weapon) {
        ShipModel { weapon, ..s }
    } else {
        s
    }
}

impl Ship {
    /// Buys a node of the tech tree. Returns whether the ship could.
    pub fn buy(&mut self, node: &str) -> (done: bool)
        ensures
            done == can_buy(old(self)@, node@),
            final(self)@ == bought(old(self)@, node@),
    {
        let ghost before = self@;
        let n: TechNode = match tech_node(node) {
            Some(n) => n,
            None => {
                return false;
            },
        };
        if lists_text(&self.tech, node) || self.body.minerals < n.price {
            return false;
        }
        self.body.minerals = self.body.minerals - n.price;
        match n.grant {
            Grant::Hull => {
                self.body.hp = toughen(self.body.hp);
                self.body.max_hp = toughen(self.body.max_hp);
            },
            Grant::TwinGuns => {
                if self.body.guns < 2 {
                    self.body.guns = 2;
                }
            },
            _ => {},
        }
        self.tech.push(node.to_string());
        assert(views(self.tech@) =~= before.tech.push(node@));
        if let Some(w) = weapon_name(n.grant) {
            if !lists_text(&self.weapons, w) {
                self.weapons.push(w.to_string());
                assert(views(self.weapons@) =~= before.weapons.push(w@));
            }
        }
        assert(self@ =~= bought(before, node@));
        true
    }

    /// Mounts a weapon. Returns whether it is unlocked.
    pub fn mount(&mut self, weapon: &str) -> (done: bool)
        ensures
            done == old(self)@.weapons.contains(weapon@),
            final(self)@ == armed(old(self)@, weapon@),
    {
        if lists_text(&self.weapons, weapon) {
            self.weapon = weapon.to_string();
            true
        } else {
            false
        }
    }
}

/// A node is bought once: to ask for it again changes nothing and costs nothing.
pub proof fn law_bought_once(s: ShipModel, node: Seq<char>)
    ensures
        bought(bought(s, node), node) == bought(s, node),
        can_buy(s, node) ==> bought(s, node).body.minerals == s.body.minerals - node_of(
            node,
        )->0.price,
{
    if can_buy(s, node) {
        assert(s.tech.push(node).last() == node);
        assert(bought(s, node).tech.contains(node));
    }
}

/// A weapon is mounted only when it is unlocked: whatever a ship asks for, what it has mounted is what
/// it had or one of its weapons.
pub proof fn law_mounted_is_unlocked(s: ShipModel, weapon: Seq<char>)
    ensures
        armed(s, weapon).weapon == s.weapon || s.weapons.contains(armed(s, weapon).weapon),
        armed(s, weapon).weapons == s.weapons,
{
}

/// What is bought is paid for, once and in full, and nothing is bought that cannot be paid for or is not sold.
pub proof fn law_purchases_are_paid(s: ShipModel, node: Seq<char>)
    ensures
        ({
            let after = bought(s, node);
            match node_of(node) {
                None => after == s,
                Some(n) => {
                    &&& s.body.minerals < n.price ==> after == s
                    &&& s.tech.contains(node) ==> after == s
                    &&& s.body.minerals >= n.price && !s.tech.contains(node) ==> {
                        &&& after.body.minerals + n.price == s.body.minerals
                        &&& after.tech == s.tech.push(node)
                        &&& after.name == s.name && after.hue == s.hue && after.owner == s.owner
                        &&& after.weapon == s.weapon && after.effects == s.effects
                        &&& after.input_ack == s.input_ack && after.last_input_seq == s.last_input_seq
                        &&& after.body.x == s.body.x && after.body.y == s.body.y && after.body.a == s.body.a
                        &&& after.body.kills == s.body.kills && after.body.alive == s.body.alive
                        &&& after.body.shield == s.body.shield && after.body.energy == s.body.energy
                    }
                },
            }
        }),
{
}

/// What a purchase gives: a hull makes the ship tougher by 50, now and at most; a second gun makes two, and never fewer than there
/// were; a weapon is there to be mounted, once.
pub proof fn law_what_purchases_give(s: ShipModel, node: Seq<char>, n: TechNode)
    requires
        can_buy(s, node),
        node_of(node) == Some(n),
        0 <= s.body.hp <= i32::MAX - 50,
        0 <= s.body.max_hp <= i32::MAX - 50,
    ensures
        ({
            let after = bought(s, node);
            &&& n.grant is Hull ==> after.body.hp == s.body.hp + 50 && after.body.max_hp == s.body.max_hp
                + 50
            &&& !(n.grant is Hull) ==> after.body.hp == s.body.hp && after.body.max_hp == s.body.max_hp
            &&& n.grant is TwinGuns ==> after.body.guns >= 2 && after.body.guns >= s.body.guns && (
            after.body.guns == 2 || after.body.guns == s.body.guns)
            &&& !(n.grant is TwinGuns) ==> after.body.guns == s.body.guns
            &&& weapon_of(n.grant) matches Some(w) ==> after.weapons.contains(w) && (
            s.weapons.contains(w) ==> after.weapons == s.weapons)
            &&& weapon_of(n.grant) is None ==> after.weapons == s.weapons
        }),
{
    let after = bought(s, node);
    if let Some(w) = weapon_of(n.grant) {
        if !s.weapons.contains(w) {
            assert(after.weapons[s.weapons.len() as int] == w);
        }
    }
}

/// Only a weapon that the ship has is mounted, and mounting it changes nothing else.
pub proof fn law_mounting(s: ShipModel, weapon: Seq<char>)
    ensures
        s.weapons.contains(weapon) ==> armed(s, weapon) == (ShipModel { weapon, ..s }),
        !s.weapons.contains(weapon) ==> armed(s, weapon) == s,
{
}

/// What is sold: a weapon is sold under its own name, no two nodes give the same, and a weapon costs more than any other fitting.
pub proof fn law_what_is_sold(a: Seq<char>, b: Seq<char>)
    requires
        node_of(a) is Some,
        node_of(b) is Some,
    ensures
        node_of(a)->0.price > 0,
        a != b ==> node_of(a)->0.grant != node_of(b)->0.grant,
        weapon_of(node_of(a)->0.grant) is Some ==> a == "tech-"@ + weapon_of(node_of(a)->0.grant)->0,
        weapon_of(node_of(a)->0.grant) is Some && weapon_of(node_of(b)->0.grant) is None ==> node_of(a)->0.price
            > node_of(b)->0.price,
{
    reveal_strlit("hull-1");
    reveal_strlit("thruster-1");
    reveal_strlit("twin-guns");
    reveal_strlit("tech-railgun");
    reveal_strlit("tech-laser");
    reveal_strlit("tech-missile");
    reveal_strlit("railgun");
    reveal_strlit("laser");
    reveal_strlit("missile");
    reveal_strlit("tech-");
    assert("tech-railgun"@ =~= "tech-"@ + "railgun"@);
    assert("tech-laser"@ =~= "tech-"@ + "laser"@);
    assert("tech-missile"@ =~= "tech-"@ + "missile"@);
}

} // verus!
