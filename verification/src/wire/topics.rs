//! Topic and service names of a sector.
use vstd::prelude::*;
use vstd::string::*;

verus! {

/// The name of the game in topics.
pub const GAME: &'static str = "spacegame";

/// The service under which the hosts of a sector are found.
pub open spec fn service_name(sector: Seq<char>) -> Seq<char> {
    "ce-game/"@ + GAME@ + "/"@ + sector
}

pub fn service(sector: &str) -> (s: String)
    ensures
        s@ == service_name(sector@),
{
    let mut s: String = "ce-game/".to_string();
    s.append(GAME);
    s.append("/");
    s.append(sector);
    s
}

/// Where the players of a sector publish their input.
pub fn input(sector: &str) -> (s: String)
    ensures
        s@ == service_name(sector@) + "/in"@,
{
    let mut s: String = service(sector);
    s.append("/in");
    s
}

/// Where the snapshots of a sector are published.
pub fn state(sector: &str) -> (s: String)
    ensures
        s@ == service_name(sector@) + "/state"@,
{
    let mut s: String = service(sector);
    s.append("/state");
    s
}

/// Different sectors have different services.
pub proof fn law_services_distinct(a: Seq<char>, b: Seq<char>)
    requires
        service_name(a) == service_name(b),
    ensures
        a == b,
{
    let p = "ce-game/"@ + GAME@ + "/"@;
    assert(service_name(a).subrange(p.len() as int, service_name(a).len() as int) =~= a);
    assert(service_name(b).subrange(p.len() as int, service_name(b).len() as int) =~= b);
}

} // verus!
