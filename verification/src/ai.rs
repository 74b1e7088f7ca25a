//! What a ship that nobody flies does next.
//!
//! A ship commits to an objective and changes its mind only where the world has changed: its rock is
//! gone, its prey has escaped, its hull is failing.
use vstd::prelude::*;

use crate::sim::{FactionCommand, ShipRole};

verus! {

/// The hull, in thousandths, at which a fighter breaks off.
pub const RETREAT_HP: u32 = 280;

/// The hull, in thousandths, at which a fighter that broke off turns back.
pub const RECOVER_HP: u32 = 600;

/// How many ticks a retreat lasts while the hull does not recover.
pub const RETREAT_TICKS: u64 = 200;

/// How far out, in percent of the engage radius, a target that is engaged is kept.
pub const ENGAGE_KEEP: u32 = 140;

/// What a ship is set on doing.
#[derive(Debug, PartialEq, Eq)]
pub enum Objective {
    Idle,
    Mine { cx: i32, cy: i32 },
    Engage { target: String, since: u64 },
    Retreat { until: u64 },
    Escort,
    Move { x: i32, y: i32 },
}

/// An objective with a text in place of a string.
pub enum Goal {
    Idle,
    Mine { cx: i32, cy: i32 },
    Engage { target: Seq<char>, since: u64 },
    Retreat { until: u64 },
    Escort,
    Move { x: i32, y: i32 },
}

impl View for Objective {
    type V = Goal;

    open spec fn view(&self) -> Goal {
        match *self {
            Objective::Idle => Goal::Idle,
            Objective::Mine { cx, cy } => Goal::Mine { cx, cy },
            Objective::Engage { target, since } => Goal::Engage { target: target@, since },
            Objective::Retreat { until } => Goal::Retreat { until },
            Objective::Escort => Goal::Escort,
            Objective::Move { x, y } => Goal::Move { x, y },
        }
    }
}

impl Default for Objective {
    fn default() -> (o: Self)
        ensures
            o == Objective::Idle,
    {
        Objective::Idle
    }
}

/// A ship in sight.
#[derive(Debug, PartialEq, Eq)]
pub struct Contact {
    pub id: String,
    pub x: i32,
    pub y: i32,
    pub vx: i32,
    pub vy: i32,
    pub dist: i32,
}

/// A rock in sight: its cell and its place.
#[derive(Debug, Clone, Copy, PartialEq, Eq, Structural)]
pub struct Rock {
    pub cx: i32,
    pub cy: i32,
    pub x: i32,
    pub y: i32,
}

/// What a ship perceives in a tick.
#[derive(Debug, PartialEq, Eq)]
pub struct Senses {
    pub now: u64,
    /// The hull, in thousandths.
    pub hp_frac: u32,
    /// The nearest enemy.
    pub enemy: Option<Contact>,
    /// The nearest rock that can be mined.
    pub rock: Option<Rock>,
    /// The rock that is being mined can still be.
    pub current_rock_live: bool,
    /// The target that is engaged is alive and near enough to keep.
    pub current_target_held: bool,
    pub engage_r: i32,
}

/// What a fleet's order means for a ship that finds nothing else to do.
pub open spec fn at_ease(cmd: FactionCommand) -> Goal {
    match cmd {
        FactionCommand::Hold => Goal::Idle,
        FactionCommand::AttackMove { x, y } => Goal::Move { x, y },
        _ => Goal::Escort,
    }
}

/// The order forbids to pick a fight.
pub open spec fn is_peaceful(cmd: FactionCommand) -> bool {
    cmd == FactionCommand::Mine || cmd == FactionCommand::Hold
}

/// Until when a ship breaks off, if it does.
pub open spec fn breaks_off(role: ShipRole, cur: Goal, s: Senses) -> Option<u64> {
    if role != ShipRole::Fighter {
        None
    } else {
        match cur {
            Goal::Retreat { until } => if s.now < until && s.hp_frac < RECOVER_HP {
                Some(until)
            } else {
                None
            },
            _ => if s.hp_frac <= RETREAT_HP {
                Some((s.now + RETREAT_TICKS) as u64)
            } else {
                None
            },
        }
    }
}

/// What a fighter does that stays in the fight.
pub open spec fn fights_on(cmd: FactionCommand, cur: Goal, s: Senses) -> Goal {
    if is_peaceful(cmd) {
        at_ease(cmd)
    } else if cur is Engage && s.current_target_held {
        cur
    } else if s.enemy is Some && s.enemy->0.dist <= s.engage_r {
        Goal::Engage { target: s.enemy->0.id@, since: s.now }
    } else {
        at_ease(cmd)
    }
}

/// What a drone does.
pub open spec fn mines_on(cmd: FactionCommand, cur: Goal, s: Senses) -> Goal {
    if cmd == FactionCommand::Hold {
        Goal::Idle
    } else if cur is Mine && s.current_rock_live {
        cur
    } else if s.rock is Some {
        Goal::Mine { cx: s.rock->0.cx, cy: s.rock->0.cy }
    } else {
        at_ease(cmd)
    }
}

/// What a ship does next.
pub open spec fn decision(role: ShipRole, cmd: FactionCommand, cur: Goal, s: Senses) -> Goal {
    match breaks_off(role, cur, s) {
        Some(until) => Goal::Retreat { until },
        None => match role {
            ShipRole::Fighter => fights_on(cmd, cur, s),
            ShipRole::Drone => mines_on(cmd, cur, s),
            ShipRole::Hauler => at_ease(cmd),
            ShipRole::Player => Goal::Idle,
        },
    }
}

fn ease(cmd: FactionCommand) -> (o: Objective)
    ensures
        o@ == at_ease(cmd),
{
    match cmd {
        FactionCommand::Hold => Objective::Idle,
        FactionCommand::AttackMove { x, y } => Objective::Move { x, y },
        _ => Objective::Escort,
    }
}

fn fighter_objective(cmd: FactionCommand, cur: &Objective, s: &Senses) -> (o: Objective)
    ensures
        o@ == fights_on(cmd, cur@, *s),
{
    if cmd == FactionCommand::Mine || cmd == FactionCommand::Hold {
        return ease(cmd);
    }
    if let Objective::Engage { target, since } = cur {
        if s.current_target_held {
            return Objective::Engage { target: target.clone(), since: *since };
        }
    }
    if let Some(e) = &s.enemy {
        if e.dist <= s.engage_r {
            return Objective::Engage { target: e.id.clone(), since: s.now };
        }
    }
    ease(cmd)
}

fn drone_objective(cmd: FactionCommand, cur: &Objective, s: &Senses) -> (o: Objective)
    ensures
        o@ == mines_on(cmd, cur@, *s),
{
    if cmd == FactionCommand::Hold {
        return Objective::Idle;
    }
    if let Objective::Mine { cx, cy } = cur {
        if s.current_rock_live {
            return Objective::Mine { cx: *cx, cy: *cy };
        }
    }
    if let Some(r) = s.rock {
        return Objective::Mine { cx: r.cx, cy: r.cy };
    }
    ease(cmd)
}

/// What a ship does next, given its role, its fleet's order, what it is doing and what it senses.
pub fn next_objective(role: ShipRole, cmd: FactionCommand, cur: &Objective, s: &Senses) -> (o:
    Objective)
    requires
        s.now <= u64::MAX - RETREAT_TICKS,
    ensures
        o@ == decision(role, cmd, cur@, *s),
{
    if role == ShipRole::Fighter {
        if let Objective::Retreat { until } = cur {
            if s.now < *until && s.hp_frac < RECOVER_HP {
                return Objective::Retreat { until: *until };
            }
        } else if s.hp_frac <= RETREAT_HP {
            return Objective::Retreat { until: s.now + RETREAT_TICKS };
        }
    }
    match role {
        ShipRole::Fighter => fighter_objective(cmd, cur, s),
        ShipRole::Drone => drone_objective(cmd, cur, s),
        ShipRole::Hauler => ease(cmd),
        ShipRole::Player => Objective::Idle,
    }
}

/// A fighter that broke off stays away until its time is up or its hull has come back, whatever it is
/// told and whatever it sees.
pub proof fn law_retreat_is_kept(cmd: FactionCommand, until: u64, s: Senses)
    requires
        s.now < until,
        s.hp_frac < RECOVER_HP,
    ensures
        decision(ShipRole::Fighter, cmd, Goal::Retreat { until }, s) == (Goal::Retreat { until }),
{
}

/// A fighter keeps a target that it holds, and the tick since which it holds it.
pub proof fn law_lock_is_kept(cmd: FactionCommand, target: Seq<char>, since: u64, s: Senses)
    requires
        !is_peaceful(cmd),
        s.current_target_held,
        s.hp_frac > RETREAT_HP,
    ensures
        decision(ShipRole::Fighter, cmd, Goal::Engage { target, since }, s) == (Goal::Engage {
            target,
            since,
        }),
{
}

/// A drone strips its rock before it looks for another.
pub proof fn law_vein_is_kept(cmd: FactionCommand, cx: i32, cy: i32, s: Senses)
    requires
        cmd != FactionCommand::Hold,
        s.current_rock_live,
    ensures
        decision(ShipRole::Drone, cmd, Goal::Mine { cx, cy }, s) == (Goal::Mine { cx, cy }),
{
}

/// The order to hold parks every ship that is not saving itself.
pub proof fn law_hold_parks(role: ShipRole, cur: Goal, s: Senses)
    requires
        breaks_off(role, cur, s) is None,
    ensures
        decision(role, FactionCommand::Hold, cur, s) == Goal::Idle,
{
}

/// No ship engages under an order that forbids it, and none but a fighter ever does.
pub proof fn law_peace_is_kept(role: ShipRole, cmd: FactionCommand, cur: Goal, s: Senses)
    requires
        is_peaceful(cmd) || role != ShipRole::Fighter,
    ensures
        !(decision(role, cmd, cur, s) is Engage),
{
}

/// When a fighter breaks off: at 28 percent of its hull or less, for 200 ticks. It comes back when they are over, or
/// when its hull is at 60 percent again. No other ship ever retreats.
pub proof fn law_retreat(role: ShipRole, cmd: FactionCommand, cur: Goal, s: Senses)
    requires
        s.now + 200 <= u64::MAX,
    ensures
        role == ShipRole::Fighter && !(cur is Retreat) && s.hp_frac <= 280 ==> decision(
            role,
            cmd,
            cur,
            s,
        ) == (Goal::Retreat { until: (s.now + 200) as u64 }),
        !(cur is Retreat) && s.hp_frac > 280 ==> !(decision(role, cmd, cur, s) is Retreat),
        cur is Retreat && role == ShipRole::Fighter ==> (decision(role, cmd, cur, s) == cur <==> s.now
            < cur->until && s.hp_frac < 600),
        cur is Retreat && s.hp_frac >= 600 ==> !(decision(role, cmd, cur, s) is Retreat),
        role != ShipRole::Fighter ==> !(decision(role, cmd, cur, s) is Retreat),
{
}

/// A fighter that is free to fight and holds no target takes on an enemy within its range, from now on; one out of
/// range it lets go. Then it does what it is told: it moves where it is sent, holds, or flies along.
pub proof fn law_fighters_engage_in_range(cmd: FactionCommand, cur: Goal, s: Senses, e: Contact)
    requires
        cmd != FactionCommand::Mine,
        cmd != FactionCommand::Hold,
        s.hp_frac > 280,
        !(cur is Retreat),
        !(cur is Engage) || !s.current_target_held,
    ensures
        s.enemy == Some(e) && e.dist <= s.engage_r ==> decision(ShipRole::Fighter, cmd, cur, s) == (
        Goal::Engage { target: e.id@, since: s.now }),
        s.enemy == Some(e) && e.dist > s.engage_r || s.enemy is None ==> !(decision(
            ShipRole::Fighter,
            cmd,
            cur,
            s,
        ) is Engage),
        s.enemy is None ==> decision(ShipRole::Fighter, cmd, cur, s) == (match cmd {
            FactionCommand::AttackMove { x, y } => Goal::Move { x, y },
            _ => Goal::Escort,
        }),
{
}

/// A drone that is not told to hold goes on with the rock it is at, or goes to the one it sees; where there is none
/// it flies along or moves where it is sent. Haulers never mine, and a player's own ship is left alone.
pub proof fn law_workers(role: ShipRole, cmd: FactionCommand, cur: Goal, s: Senses, r: Rock)
    ensures
        role == ShipRole::Drone && cmd != FactionCommand::Hold && !(cur is Mine && s.current_rock_live)
            && s.rock == Some(r) ==> decision(role, cmd, cur, s) == (Goal::Mine { cx: r.cx, cy: r.cy }),
        role == ShipRole::Drone && !(cur is Mine && s.current_rock_live) && s.rock is None ==> !(decision(
            role,
            cmd,
            cur,
            s,
        ) is Mine),
        role == ShipRole::Player ==> decision(role, cmd, cur, s) == Goal::Idle,
        role == ShipRole::Hauler ==> decision(role, cmd, cur, s) == (match cmd {
            FactionCommand::Hold => Goal::Idle,
            FactionCommand::AttackMove { x, y } => Goal::Move { x, y },
            _ => Goal::Escort,
        }),
        decision(role, cmd, cur, s) is Mine ==> role == ShipRole::Drone,
{
}

} // verus!
