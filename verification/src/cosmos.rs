//! The face of the galaxy: what a node offers, and what a player holds.
use vstd::prelude::*;
use vstd::string::*;

use crate::autoscale::AutoscalePolicy;
use crate::fleet::RegionHint;
use crate::galaxy::{interest_of, owner_of, root_cell, CellId, Galaxy, World};
use crate::order::SortedSet;

verus! {

/// What a node offers.
#[derive(Debug, Clone, Copy, PartialEq, Eq, Structural)]
pub struct Roles {
    /// It runs cells.
    pub host: bool,
    /// It takes part in decisions on the galaxy's shape.
    pub controller: bool,
    /// It lets browsers in.
    pub gateway: bool,
}

impl Roles {
    pub fn everything() -> (r: Roles)
        ensures
            r == (Roles { host: true, controller: true, gateway: true }),
    {
        Roles { host: true, controller: true, gateway: true }
    }

    pub fn donor() -> (r: Roles)
        ensures
            r == (Roles { host: true, controller: true, gateway: false }),
    {
        Roles { host: true, controller: true, gateway: false }
    }

    pub fn edge() -> (r: Roles)
        ensures
            r == (Roles { host: false, controller: false, gateway: true }),
    {
        Roles { host: false, controller: false, gateway: true }
    }
}

/// How a node takes part.
pub struct NodeConfig {
    pub roles: Roles,
    pub autoscale: AutoscalePolicy,
    /// The content hash of the cell image that controllers deploy.
    pub cell_image: String,
    /// The most that a controller pays for a cell-minute.
    pub max_bid_per_min: u128,
}

impl Default for NodeConfig {
    fn default() -> (c: Self)
        ensures
            c.roles == (Roles { host: true, controller: true, gateway: false }),
            call_ensures(AutoscalePolicy::default, (), c.autoscale),
            c.cell_image@ == "ce-net/spacegame:latest"@,
            c.max_bid_per_min == 1_000,
    {
        NodeConfig {
            roles: Roles::donor(),
            autoscale: AutoscalePolicy::default(),
            cell_image: "ce-net/spacegame:latest".to_string(),
            max_bid_per_min: 1_000,
        }
    }
}

/// A player in the galaxy.
pub struct Player {
    pub id: String,
    /// The galaxy's shape, as far as the player has heard of it.
    pub galaxy: Galaxy,
    pub x: World,
    pub y: World,
    /// How far the player sees.
    pub view: World,
    /// The cell that owns the player's place.
    pub cell: CellId,
}

impl Player {
    /// The player's cell is the leaf at the player's place.
    pub open spec fn wf(&self) -> bool {
        &&& self.galaxy.wf()
        &&& self.cell == owner_of(self.galaxy@, self.x as int, self.y as int)
    }

    /// A player who has just joined: in the middle of a galaxy that has not been heard of yet.
    pub fn join(id: String, view: World) -> (p: Player)
        ensures
            p.wf(),
            p.id == id,
            p.view == view,
            p.x == 0,
            p.y == 0,
            p.galaxy@ == set![root_cell()],
    {
        let galaxy = Galaxy::genesis();
        let cell: CellId = galaxy.leaf_at(0, 0);
        Player { id, galaxy, x: 0, y: 0, view, cell }
    }

    /// The cells that the player subscribes to.
    pub fn interest(&self) -> (r: SortedSet<CellId>)
        requires
            self.galaxy.wf(),
            i64::MIN <= self.x - self.view <= i64::MAX,
            i64::MIN <= self.x + self.view <= i64::MAX,
            i64::MIN <= self.y - self.view <= i64::MAX,
            i64::MIN <= self.y + self.view <= i64::MAX,
        ensures
            r.wf(),
            r@ == interest_of(self.galaxy@, self.x as int, self.y as int, self.view as int),
    {
        self.galaxy.interest(self.x, self.y, self.view)
    }

    /// Moves the player. The result is the new cell, where it is another one.
    pub fn moved_to(&mut self, x: World, y: World) -> (r: Option<CellId>)
        requires
            old(self).galaxy.wf(),
        ensures
            final(self).wf(),
            final(self).id == old(self).id,
            final(self).galaxy == old(self).galaxy,
            final(self).view == old(self).view,
            final(self).x == x,
            final(self).y == y,
            r == (if final(self).cell == old(self).cell {
                None
            } else {
                Some(final(self).cell)
            }),
    {
        self.x = x;
        self.y = y;
        let now: CellId = self.galaxy.leaf_at(x, y);
        if now != self.cell {
            self.cell = now;
            Some(now)
        } else {
            None
        }
    }

    /// Takes in a galaxy that was reshaped. The result is the player's new cell, where it is another one.
    pub fn on_reshape(&mut self, galaxy: Galaxy) -> (r: Option<CellId>)
        requires
            galaxy.wf(),
        ensures
            final(self).wf(),
            final(self).id == old(self).id,
            final(self).galaxy == galaxy,
            final(self).view == old(self).view,
            final(self).x == old(self).x,
            final(self).y == old(self).y,
            r == (if final(self).cell == old(self).cell {
                None
            } else {
                Some(final(self).cell)
            }),
    {
        self.galaxy = galaxy;
        let now: CellId = self.galaxy.leaf_at(self.x, self.y);
        if now != self.cell {
            self.cell = now;
            Some(now)
        } else {
            None
        }
    }
}

/// The round-trip time to a gateway.
#[derive(Debug)]
pub struct GatewayRtt {
    pub gateway: String,
    pub rtt_ms: u32,
}

/// The region of a player, by the latency to the gateways. It is unknown whatever was measured.
pub fn region_from_rtt(gateway_rtts: &Vec<GatewayRtt>) -> (r: RegionHint)
    ensures
        r@ == RegionHint::UNKNOWN@,
{
    RegionHint::unknown()
}

/// A player subscribes to nine cells at most, however large and crowded the galaxy is.
pub proof fn law_interest_is_bounded(shape: Set<CellId>, x: int, y: int, view: int)
    ensures
        interest_of(shape, x, y, view).finite(),
        interest_of(shape, x, y, view).len() <= 9,
{
}

} // verus!
