//! Topic names of the galaxy gossip.
use vstd::prelude::*;
use vstd::string::*;

verus! {

/// Committed reshapes of the galaxy.
pub const SHAPE: &'static str = "ce-game/spacegame/galaxy";

/// Liveness of controllers and hosts.
pub const CONTROL: &'static str = "ce-game/spacegame/control";

/// The name of a cell's topic: a fixed prefix, the cell's token, and what the topic carries.
pub open spec fn cell_topic(token: Seq<char>, suffix: Seq<char>) -> Seq<char> {
    "ce-game/spacegame/"@ + token + suffix
}

fn topic_of(token: &str, suffix: &str) -> (s: String)
    ensures
        s@ == cell_topic(token@, suffix@),
{
    let mut s: String = "ce-game/spacegame/".to_string();
    s.append(token);
    s.append(suffix);
    s
}

/// Where the load of a cell is published.
pub fn load(cell_token: &str) -> (s: String)
    ensures
        s@ == cell_topic(cell_token@, "/load"@),
{
    topic_of(cell_token, "/load")
}

/// Where the snapshots of a cell are published.
pub fn state(cell_token: &str) -> (s: String)
    ensures
        s@ == cell_topic(cell_token@, "/state"@),
{
    topic_of(cell_token, "/state")
}

/// Where the players of a cell publish their input.
pub fn input(cell_token: &str) -> (s: String)
    ensures
        s@ == cell_topic(cell_token@, "/in"@),
{
    topic_of(cell_token, "/in")
}

/// Two cells never share a topic of the same kind.
pub proof fn law_topics_distinct(a: Seq<char>, b: Seq<char>, suffix: Seq<char>)
    requires
        cell_topic(a, suffix) == cell_topic(b, suffix),
    ensures
        a == b,
{
    let p = "ce-game/spacegame/"@;
    let s = cell_topic(a, suffix);
    assert(s.len() == p.len() + a.len() + suffix.len());
    assert(cell_topic(b, suffix).len() == p.len() + b.len() + suffix.len());
    assert(s.subrange(p.len() as int, (p.len() + a.len()) as int) =~= a);
    assert(cell_topic(b, suffix).subrange(p.len() as int, (p.len() + b.len()) as int) =~= b);
}

} // verus!
