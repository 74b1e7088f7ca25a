//! The gossip that converges the map of the known galaxy.
use vstd::prelude::*;

verus! {

pub const TOPIC: &'static str = "ce-game/spacegame/frontier";

/// The two claims.
#[derive(Debug)]
pub enum FrontierMsg {
    /// Somebody was first into a cell.
    Discover(DiscoveryClaim),
    /// Somebody names a feature.
    Name(NameClaim),
}

#[derive(Debug)]
pub struct DiscoveryClaim {
    pub cell_token: String,
    pub by: String,
    pub epoch: u64,
    pub ring: u32,
}

#[derive(Debug)]
pub struct NameClaim {
    pub cell_token: String,
    pub kind: String,
    pub name: String,
    pub by: String,
    pub epoch: u64,
}

} // verus!
