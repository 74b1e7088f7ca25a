//! The gateway tier: the public nodes through which browsers reach the galaxy.
use vstd::prelude::*;
use vstd::string::*;

use crate::fleet::{RegionHint, REDLINE_PERMILLE};
use crate::sort::{lemma_sorted_contains, lemma_stably_sorted, sort_stably, stably_sorted, Ranked};

verus! {

/// How a browser is attached to the mesh.
#[derive(Debug, PartialEq, Eq)]
pub enum Attachment {
    /// A peer in the tab, with a key of its own.
    InBrowserPeer { node_id: String },
    /// A bridged session, with a key that the gateway signs for it.
    BridgedSubkey { gateway: String, subkey_id: String },
}

impl Attachment {
    /// The player's id, whichever way they are attached.
    pub fn player_id(&self) -> (id: &str)
        ensures
            id@ == player_of(*self),
    {
        match self {
            Attachment::InBrowserPeer { node_id } => node_id.as_str(),
            Attachment::BridgedSubkey { gateway, subkey_id } => subkey_id.as_str(),
        }
    }
}

/// A gateway. It holds no game state, it counts its sessions.
#[derive(Debug)]
pub struct Gateway {
    pub node_id: String,
    pub region: RegionHint,
    /// The endpoints that a browser tries, in order.
    pub endpoints: Vec<String>,
    pub sessions: u32,
    /// Soft cap on the sessions.
    pub session_budget: u32,
    /// Smoothed load in thousandths.
    pub load_permille: u32,
    pub last_seen: u64,
}

/// The sessions that a gateway has room for.
pub open spec fn free_sessions(g: Gateway) -> nat {
    if g.sessions <= g.session_budget {
        (g.session_budget - g.sessions) as nat
    } else {
        0
    }
}

/// The gateway takes new sessions.
pub open spec fn accepts(g: Gateway) -> bool {
    free_sessions(g) > 0 && g.load_permille < REDLINE_PERMILLE
}

impl Gateway {
    pub fn headroom(&self) -> (n: u32)
        ensures
            n == free_sessions(*self),
    {
        self.session_budget.saturating_sub(self.sessions)
    }

    pub fn accepting(&self) -> (r: bool)
        ensures
            r == accepts(*self),
    {
        self.headroom() > 0 && self.load_permille < REDLINE_PERMILLE
    }
}

/// A gateway in the running: where it stands in the directory, whether it is in another region, and
/// its load.
#[derive(Debug, Clone, Copy, PartialEq, Eq, Structural)]
pub struct Contact {
    pub at: usize,
    pub away: bool,
    pub load_permille: u32,
}

impl Ranked for Contact {
    open spec fn before(&self, other: &Self) -> bool {
        (!self.away && other.away) || (self.away == other.away && self.load_permille
            < other.load_permille)
    }

    fn goes_before(&self, other: &Self) -> (r: bool) {
        (!self.away && other.away) || (self.away == other.away && self.load_permille
            < other.load_permille)
    }

    proof fn before_asymmetric(a: &Self, b: &Self) {
    }

    proof fn before_negatively_transitive(a: &Self, b: &Self, c: &Self) {
    }
}

/// The first `n` gateways of a directory that accept, as contacts of a browser in a region.
pub open spec fn contacts(gateways: Seq<Gateway>, region: Seq<char>, n: nat) -> Seq<Contact>
    decreases n,
{
    if n == 0 {
        Seq::empty()
    } else {
        let rest = contacts(gateways, region, (n - 1) as nat);
        let g = gateways[n - 1];
        if accepts(g) {
            rest.push(
                Contact {
                    at: (n - 1) as usize,
                    away: g.region@ != region,
                    load_permille: g.load_permille,
                },
            )
        } else {
            rest
        }
    }
}

/// The accepting gateways, those of the region first and the least loaded of them first.
pub open spec fn ranking(gateways: Seq<Gateway>, region: Seq<char>) -> Seq<Contact> {
    stably_sorted(contacts(gateways, region, gateways.len()))
}

/// How many of the best contacts a browser is spread over: up to four that are all in its region, or up
/// to four that are all away where none is. Counted from the `n`-th on.
pub open spec fn spread_over(ranked: Seq<Contact>, n: nat) -> nat
    decreases 4 - n,
{
    if n < 4 && n < ranked.len() && ranked[n as int].away == ranked[0].away {
        spread_over(ranked, n + 1)
    } else {
        n
    }
}

/// The place of the gateway that a browser attaches to: one of the best, by its seed.
pub open spec fn picked(gateways: Seq<Gateway>, region: Seq<char>, seed: usize) -> Option<int> {
    let ranked = ranking(gateways, region);
    let n = spread_over(ranked, 0);
    if n == 0 {
        None
    } else {
        Some(ranked[(seed as int) % (n as int)].at as int)
    }
}

/// Free sessions of the gateways of a region.
pub open spec fn free_in(gateways: Seq<Gateway>, region: Seq<char>) -> nat
    decreases gateways.len(),
{
    if gateways.len() == 0 {
        0
    } else {
        free_in(gateways.drop_last(), region) + (if gateways.last().region@ == region {
            free_sessions(gateways.last())
        } else {
            0
        })
    }
}

/// Sessions that the gateways of a region have room for in all.
pub open spec fn budget_in(gateways: Seq<Gateway>, region: Seq<char>) -> nat
    decreases gateways.len(),
{
    if gateways.len() == 0 {
        0
    } else {
        budget_in(gateways.drop_last(), region) + (if gateways.last().region@ == region {
            gateways.last().session_budget as nat
        } else {
            0
        })
    }
}

/// The directory that a browser reads to find its gateway.
#[derive(Debug)]
pub struct GatewayDirectory {
    pub gateways: Vec<Gateway>,
}

proof fn lemma_contacts(gateways: Seq<Gateway>, region: Seq<char>, n: nat)
    requires
        n <= gateways.len() <= usize::MAX,
    ensures
        forall|i: int|
            0 <= i < contacts(gateways, region, n).len() ==> (#[trigger] contacts(
                gateways,
                region,
                n,
            )[i]).at < n && accepts(
                gateways[contacts(gateways, region, n)[i].at as int],
            ),
        (exists|j: int| 0 <= j < n && accepts(#[trigger] gateways[j])) ==> contacts(
            gateways,
            region,
            n,
        ).len() > 0,
    decreases n,
{
    if n > 0 {
        lemma_contacts(gateways, region, (n - 1) as nat);
        let rest = contacts(gateways, region, (n - 1) as nat);
        let all = contacts(gateways, region, n);
        assert forall|i: int| 0 <= i < all.len() implies (#[trigger] all[i]).at < n && accepts(
            gateways[all[i].at as int],
        ) by {
            if i < rest.len() {
                assert(all[i] == rest[i]);
            }
        }
    }
}

impl GatewayDirectory {
    /// The gateway for a browser in a region: one of the four least loaded that accept there, or
    /// elsewhere where none does, spread by the browser's seed so that a crowd does not pile onto one.
    pub fn pick(&self, region: &RegionHint, spread_seed: u64) -> (r: Option<&Gateway>)
        ensures
            match (r, picked(self.gateways@, region@, spread_seed as usize)) {
                (Some(g), Some(at)) => *g == self.gateways@[at] && 0 <= at < self.gateways@.len()
                    && accepts(*g),
                (None, None) => forall|j: int|
                    0 <= j < self.gateways@.len() ==> !accepts(#[trigger] self.gateways@[j]),
                _ => false,
            },
    {
        let ghost all = self.gateways@;
        let mut found: Vec<Contact> = Vec::new();
        let mut i: usize = 0;
        while i < self.gateways.len()
            invariant
                i <= all.len(),
                all == self.gateways@,
                found@ == contacts(all, region@, i as nat),
            decreases all.len() - i,
        {
            let g = &self.gateways[i];
            if g.accepting() {
                found.push(
                    Contact {
                        at: i,
                        away: !g.region.same(region),
                        load_permille: g.load_permille,
                    },
                );
            }
            i = i + 1;
        }
        let ranked = sort_stably(found);
        proof {
            assert(self.gateways.len() == all.len());
            lemma_contacts(all, region@, all.len());
            lemma_stably_sorted(found@);
        }
        let mut n: usize = 0;
        while n < 4 && n < ranked.len() && ranked[n].away == ranked[0].away
            invariant
                n <= 4,
                n <= ranked@.len(),
                spread_over(ranked@, n as nat) == spread_over(ranked@, 0),
            decreases 4 - n,
        {
            n = n + 1;
        }
        if n == 0 {
            return None;
        }
        let k: usize = (spread_seed as usize) % n;
        let at: usize = ranked[k].at;
        proof {
            let c = ranked@[k as int];
            lemma_sorted_contains(found@, c);
            assert(found@.contains(c));
            let j = choose|j: int| 0 <= j < found@.len() && found@[j] == c;
            assert(contacts(all, region@, all.len())[j] == c);
        }
        Some(&self.gateways[at])
    }

    /// The part of a region's sessions that is free, in thousandths, rounded down.
    pub fn slack(&self, region: &RegionHint) -> (permille: u64)
        requires
            self.gateways@.len() <= u32::MAX,
        ensures
            permille == (if budget_in(self.gateways@, region@) == 0 {
                0
            } else {
                (free_in(self.gateways@, region@) * 1000) as int / budget_in(
                    self.gateways@,
                    region@,
                ) as int
            }),
    {
        let ghost all = self.gateways@;
        let mut free: u64 = 0;
        let mut total: u64 = 0;
        let mut i: usize = 0;
        assert(all.subrange(0, 0) =~= Seq::<Gateway>::empty());
        while i < self.gateways.len()
            invariant
                i <= all.len() <= u32::MAX,
                all == self.gateways@,
                free == free_in(all.subrange(0, i as int), region@),
                total == budget_in(all.subrange(0, i as int), region@),
                free <= total <= i * 0xffff_ffff,
            decreases all.len() - i,
        {
            let g = &self.gateways[i];
            proof {
                assert(all.subrange(0, i + 1).drop_last() =~= all.subrange(0, i as int));
                assert(total <= 0xffff_fffe * 0xffff_ffff) by {
                    assert(i * 0xffff_ffff <= 0xffff_fffe * 0xffff_ffff);
                }
            }
            if g.region.same(region) {
                free = free + g.headroom() as u64;
                total = total + g.session_budget as u64;
            }
            i = i + 1;
        }
        assert(all.subrange(0, i as int) =~= all);
        if total == 0 {
            0
        } else {
            let part: u128 = free as u128 * 1000 / total as u128;
            proof {
                assert(part <= 1000) by (nonlinear_arith)
                    requires
                        part == (free as int * 1000) / (total as int),
                        0 <= free <= total,
                        total > 0,
                ;
            }
            part as u64
        }
    }
}

/// What a browser does to come online: how it is attached, which endpoint it dials, and where it is.
pub struct JoinPlan {
    pub attachment: Attachment,
    pub gateway_endpoint: String,
    pub region: RegionHint,
}

proof fn lemma_spread_over(ranked: Seq<Contact>, n: nat)
    requires
        n <= 4,
        n <= ranked.len(),
        forall|k: int| 0 <= k < n ==> (#[trigger] ranked[k]).away == ranked[0].away,
    ensures
        n <= spread_over(ranked, n) <= 4,
        spread_over(ranked, n) <= ranked.len(),
        forall|k: int|
            0 <= k < spread_over(ranked, n) ==> (#[trigger] ranked[k]).away == ranked[0].away,
    decreases 4 - n,
{
    if n < 4 && n < ranked.len() && ranked[n as int].away == ranked[0].away {
        lemma_spread_over(ranked, n + 1);
    }
}

proof fn lemma_contacts_hold(gateways: Seq<Gateway>, region: Seq<char>, n: nat, j: int)
    requires
        0 <= j < n <= gateways.len() <= usize::MAX,
        accepts(gateways[j]),
    ensures
        contacts(gateways, region, n).contains(
            Contact {
                at: j as usize,
                away: gateways[j].region@ != region,
                load_permille: gateways[j].load_permille,
            },
        ),
    decreases n,
{
    let c = Contact {
        at: j as usize,
        away: gateways[j].region@ != region,
        load_permille: gateways[j].load_permille,
    };
    let all = contacts(gateways, region, n);
    if j == n - 1 {
        assert(all[all.len() - 1] == c);
    } else {
        lemma_contacts_hold(gateways, region, (n - 1) as nat, j);
        let rest = contacts(gateways, region, (n - 1) as nat);
        let k = choose|k: int| 0 <= k < rest.len() && rest[k] == c;
        assert(all[k] == c);
    }
}

proof fn lemma_contacts_tell(gateways: Seq<Gateway>, region: Seq<char>, n: nat)
    requires
        n <= gateways.len() <= usize::MAX,
    ensures
        forall|i: int|
            0 <= i < contacts(gateways, region, n).len() ==> {
                let c = #[trigger] contacts(gateways, region, n)[i];
                c.at < n && c.away == (gateways[c.at as int].region@ != region)
            },
    decreases n,
{
    if n > 0 {
        lemma_contacts_tell(gateways, region, (n - 1) as nat);
        let rest = contacts(gateways, region, (n - 1) as nat);
        let all = contacts(gateways, region, n);
        assert forall|i: int| 0 <= i < all.len() implies {
            let c = #[trigger] all[i];
            c.at < n && c.away == (gateways[c.at as int].region@ != region)
        } by {
            if i < rest.len() {
                assert(all[i] == rest[i]);
            }
        }
    }
}

/// A browser stays in its region as long as a gateway there accepts it, whatever its seed.
pub proof fn law_browsers_stay_in_their_region(
    gateways: Seq<Gateway>,
    region: Seq<char>,
    seed: usize,
    near: int,
)
    requires
        gateways.len() <= usize::MAX,
        0 <= near < gateways.len(),
        accepts(gateways[near]),
        gateways[near].region@ == region,
    ensures
        picked(gateways, region, seed) is Some,
        gateways[picked(gateways, region, seed)->0].region@ == region,
{
    let found = contacts(gateways, region, gateways.len());
    let ranked = ranking(gateways, region);
    let c = Contact {
        at: near as usize,
        away: false,
        load_permille: gateways[near].load_permille,
    };
    lemma_contacts_hold(gateways, region, gateways.len(), near);
    lemma_contacts_tell(gateways, region, gateways.len());
    lemma_stably_sorted(found);
    lemma_sorted_contains(found, c);
    let k = choose|k: int| 0 <= k < ranked.len() && ranked[k] == c;
    assert(!ranked[0].away) by {
        assert(ranked[k] == c);
        if k > 0 {
            assert(!ranked[k].before(&ranked[0]));
        }
    }
    lemma_spread_over(ranked, 0);
    assert(spread_over(ranked, 0) >= 1) by {
        lemma_spread_over(ranked, 1);
        assert(spread_over(ranked, 0) == spread_over(ranked, 1));
    }
    let n = spread_over(ranked, 0) as int;
    let at = (seed as int) % n;
    assert(0 <= at < n);
    let chosen = ranked[at];
    lemma_sorted_contains(found, chosen);
    assert(ranked.contains(chosen));
    let i = choose|i: int| 0 <= i < found.len() && found[i] == chosen;
    assert(found[i] == chosen);
}

/// Bridged sessions with different subkeys are different players, also on one gateway.
pub proof fn law_bridged_players_distinct(a: Attachment, b: Attachment)
    requires
        a matches Attachment::BridgedSubkey { gateway: _, subkey_id: s } && b
            matches Attachment::BridgedSubkey { gateway: _, subkey_id: t } && s@ != t@,
    ensures
        player_of(a) != player_of(b),
{
}

/// The player behind an attachment.
pub open spec fn player_of(a: Attachment) -> Seq<char> {
    match a {
        Attachment::InBrowserPeer { node_id } => node_id@,
        Attachment::BridgedSubkey { gateway, subkey_id } => subkey_id@,
    }
}

/// A gateway accepts a session while its budget is not used up and its load is below 85 percent.
pub proof fn law_room_at_a_gateway(g: Gateway)
    ensures
        accepts(g) <==> g.sessions < g.session_budget && g.load_permille < 850,
        g.sessions <= g.session_budget ==> g.sessions + free_sessions(g) == g.session_budget,
        g.sessions >= g.session_budget ==> free_sessions(g) == 0,
{
}

/// Where a browser is sent. It is a gateway that accepts it; with a seed of nothing there is none that is preferred
/// to it: none in the region where it is not, and none as near with less load. Where no gateway accepts, there is
/// none to send it to.
pub proof fn law_browsers_are_sent_to_the_best(gateways: Seq<Gateway>, region: Seq<char>, seed: usize, j: int)
    requires
        gateways.len() <= usize::MAX,
        0 <= j < gateways.len(),
    ensures
        picked(gateways, region, seed) matches Some(at) ==> 0 <= at < gateways.len()
            && gateways[at].sessions < gateways[at].session_budget && gateways[at].load_permille < 850,
        gateways[j].sessions < gateways[j].session_budget && gateways[j].load_permille < 850 ==> {
            &&& picked(gateways, region, seed) is Some
            &&& picked(gateways, region, 0) matches Some(at) && (gateways[j].region@ == region
                ==> gateways[at].region@ == region) && ((gateways[j].region@ == region) == (
            gateways[at].region@ == region) ==> gateways[at].load_permille
                <= gateways[j].load_permille)
        },
{
    let found = contacts(gateways, region, gateways.len());
    let ranked = ranking(gateways, region);
    lemma_contacts(gateways, region, gateways.len());
    lemma_contacts_tell(gateways, region, gateways.len());
    lemma_contacts_load(gateways, region, gateways.len());
    lemma_stably_sorted(found);
    lemma_spread_over(ranked, 0);
    if ranked.len() > 0 {
        lemma_spread_over(ranked, 1);
        assert(spread_over(ranked, 0) == spread_over(ranked, 1));
        let n = spread_over(ranked, 0) as int;
        let at = (seed as int) % n;
        assert(0 <= at < n);
        assert(ranked.contains(ranked[at]));
        lemma_sorted_contains(found, ranked[at]);
        let i = choose|i: int| 0 <= i < found.len() && found[i] == ranked[at];
        assert(ranked.contains(ranked[0]));
        lemma_sorted_contains(found, ranked[0]);
        let z = choose|i: int| 0 <= i < found.len() && found[i] == ranked[0];
        assert(0int % n == 0);
        if accepts(gateways[j]) {
            let c = Contact {
                at: j as usize,
                away: gateways[j].region@ != region,
                load_permille: gateways[j].load_permille,
            };
            lemma_contacts_hold(gateways, region, gateways.len(), j);
            lemma_sorted_contains(found, c);
            let k = choose|k: int| 0 <= k < ranked.len() && ranked[k] == c;
            assert(ranked[k] == c);
            if k > 0 {
                assert(!ranked[k].before(&ranked[0]));
            }
        }
    } else if accepts(gateways[j]) {
        lemma_contacts_hold(gateways, region, gateways.len(), j);
    }
}

proof fn lemma_contacts_load(gateways: Seq<Gateway>, region: Seq<char>, n: nat)
    requires
        n <= gateways.len() <= usize::MAX,
    ensures
        forall|i: int|
            0 <= i < contacts(gateways, region, n).len() ==> {
                let c = #[trigger] contacts(gateways, region, n)[i];
                c.at < n && c.load_permille == gateways[c.at as int].load_permille
            },
    decreases n,
{
    if n > 0 {
        lemma_contacts_load(gateways, region, (n - 1) as nat);
        let rest = contacts(gateways, region, (n - 1) as nat);
        let all = contacts(gateways, region, n);
        assert forall|i: int| 0 <= i < all.len() implies {
            let c = #[trigger] all[i];
            c.at < n && c.load_permille == gateways[c.at as int].load_permille
        } by {
            if i < rest.len() {
                assert(all[i] == rest[i]);
            }
        }
    }
}

/// Browsers are spread over the best gateways, up to four, as long as these are as near as the very best; over fewer
/// only where there are no more of them.
pub proof fn law_browsers_are_spread(gateways: Seq<Gateway>, region: Seq<char>, seed: usize)
    requires
        ranking(gateways, region).len() > 0,
    ensures
        ({
            let ranked = ranking(gateways, region);
            let n = spread_over(ranked, 0);
            &&& 1 <= n <= 4
            &&& n <= ranked.len()
            &&& forall|k: int| 0 <= k < n ==> (#[trigger] ranked[k]).away == ranked[0].away
            &&& n < 4 && n < ranked.len() ==> ranked[n as int].away != ranked[0].away
            &&& picked(gateways, region, seed) == Some(ranked[seed as int % n as int].at as int)
        }),
{
    let ranked = ranking(gateways, region);
    lemma_spread_over(ranked, 0);
    lemma_spread_over(ranked, 1);
    assert(spread_over(ranked, 0) == spread_over(ranked, 1));
    lemma_spread_ends(ranked, 0);
}

proof fn lemma_spread_ends(ranked: Seq<Contact>, n: nat)
    requires
        n <= 4,
    ensures
        ({
            let m = spread_over(ranked, n);
            m < 4 && m < ranked.len() ==> ranked[m as int].away != ranked[0].away
        }),
    decreases 4 - n,
{
    if n < 4 && n < ranked.len() && ranked[n as int].away == ranked[0].away {
        lemma_spread_ends(ranked, n + 1);
    }
}

/// The room of a region is that of its own gateways.
pub proof fn law_region_sums(gateways: Seq<Gateway>, g: Gateway, region: Seq<char>)
    ensures
        g.region@ == region ==> budget_in(gateways.push(g), region) == budget_in(gateways, region)
            + g.session_budget,
        g.region@ == region ==> free_in(gateways.push(g), region) == free_in(gateways, region) + (
        if g.sessions < g.session_budget {
            g.session_budget - g.sessions
        } else {
            0
        }),
        g.region@ != region ==> budget_in(gateways.push(g), region) == budget_in(gateways, region)
            && free_in(gateways.push(g), region) == free_in(gateways, region),
        budget_in(Seq::empty(), region) == 0,
        free_in(Seq::empty(), region) == 0,
{
    assert(gateways.push(g).drop_last() =~= gateways);
}

} // verus!
