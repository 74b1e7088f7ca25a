//! The director's decisions: what is announced where, what is believed of what was announced, and what
//! is asked of the mesh.
use vstd::prelude::*;
use vstd::string::*;

use crate::leaderboard::{Leaderboard, Standing};
use crate::order::{views, SortedMap};
use crate::replication::ReplicaCandidate;
use crate::shard::{holds_shard, sector_of_token, shard_for, SectorId};
use crate::sim::{Ship, Sim};
use crate::sort::{lemma_filter_push, stably_sorted};
use crate::text::same_text;
use crate::wire::topics::{service, service_name, GAME};

verus! {

/// The galaxy whose standings are sealed.
pub const GALAXY: &'static str = "main";

/// What a host must have before a sector is placed on it.
pub const MIN_CORES: u32 = 1;

pub const MIN_MEM_MB: u32 = 128;

/// With this many ships a sector is busy enough to warm its neighbours.
pub const PREWARM_THRESHOLD: usize = 80;

/// The distance of a replica candidate whose latency nobody has measured.
pub const UNMEASURED_DIST: u32 = 150;

/// The service under which the holders of a sector's latest snapshot are found.
pub fn snapshot_service(sector: &str) -> (s: String)
    ensures
        s@ == service_name(sector@) + "/snap"@,
{
    let mut s: String = service(sector);
    s.append("/snap");
    s
}

/// Where a host announces each fresh snapshot of a sector.
pub fn snapshot_topic(sector: &str) -> (s: String)
    ensures
        s@ == service_name(sector@) + "/snap"@,
{
    let mut s: String = service(sector);
    s.append("/snap");
    s
}

/// Where a sector receives the ships that cross its edge.
pub fn transit_topic(sector: &str) -> (s: String)
    ensures
        s@ == service_name(sector@) + "/transit"@,
{
    let mut s: String = service(sector);
    s.append("/transit");
    s
}

/// Where the replica holders of a region send their heartbeats.
pub fn replica_topic(region: &str) -> (s: String)
    ensures
        s@ == service_name(region@) + "/replica"@,
{
    let mut s: String = service(region);
    s.append("/replica");
    s
}

/// Where the replica holders of a region publish their state hashes.
pub fn proof_topic(region: &str) -> (s: String)
    ensures
        s@ == service_name(region@) + "/proof"@,
{
    let mut s: String = service(region);
    s.append("/proof");
    s
}

/// The prefix of what concerns the galaxy as a whole.
pub open spec fn galaxy_name() -> Seq<char> {
    "ce-game/"@ + GAME@ + "/"@ + GALAXY@
}

/// Where the sealed standings of the galaxy are broadcast.
pub fn seal_topic() -> (s: String)
    ensures
        s@ == galaxy_name() + "/seal"@,
{
    let mut s: String = service(GALAXY);
    s.append("/seal");
    s
}

/// Where the ruleset in force is announced.
pub fn ruleset_topic() -> (s: String)
    ensures
        s@ == galaxy_name() + "/ruleset"@,
{
    let mut s: String = service(GALAXY);
    s.append("/ruleset");
    s
}

/// The service under which the holders of the latest ruleset are found.
pub fn ruleset_service() -> (s: String)
    ensures
        s@ == galaxy_name() + "/ruleset"@,
{
    let mut s: String = service(GALAXY);
    s.append("/ruleset");
    s
}

/// A fresh snapshot of a sector exists.
#[derive(Debug, PartialEq, Eq)]
pub struct SnapshotAnnounce {
    pub cid: String,
    pub tick: u64,
}

/// A ruleset is in force.
#[derive(Debug, PartialEq, Eq)]
pub struct RulesetAnnounce {
    pub cid: String,
    pub version: u64,
}

/// A node that holds a replica of a region is alive.
#[derive(Debug, PartialEq, Eq)]
pub struct Heartbeat {
    pub region: String,
    pub node: String,
    pub tick: u64,
}

/// The snapshot that is adopted of those announced: one of the highest tick, the first on a tie.
pub open spec fn freshest(heard: Seq<SnapshotAnnounce>) -> Option<SnapshotAnnounce>
    decreases heard.len(),
{
    if heard.len() == 0 {
        None
    } else {
        later_snapshot(freshest(heard.drop_last()), heard.last())
    }
}

pub open spec fn later_snapshot(
    best: Option<SnapshotAnnounce>,
    ann: SnapshotAnnounce,
) -> Option<SnapshotAnnounce> {
    match best {
        Some(b) => if ann.tick > b.tick {
            Some(ann)
        } else {
            Some(b)
        },
        None => Some(ann),
    }
}

/// The better of the best announcement so far and a new one: the new one only with a higher tick.
pub fn prefer_snapshot(best: Option<SnapshotAnnounce>, ann: SnapshotAnnounce) -> (r: Option<
    SnapshotAnnounce,
>)
    ensures
        r == later_snapshot(best, ann),
{
    match best {
        Some(b) => if ann.tick > b.tick {
            Some(ann)
        } else {
            Some(b)
        },
        None => Some(ann),
    }
}

/// The ruleset that is adopted of those announced: one of the highest version, the first on a tie.
pub open spec fn newest(heard: Seq<RulesetAnnounce>) -> Option<RulesetAnnounce>
    decreases heard.len(),
{
    if heard.len() == 0 {
        None
    } else {
        newer_ruleset(newest(heard.drop_last()), heard.last())
    }
}

pub open spec fn newer_ruleset(
    best: Option<RulesetAnnounce>,
    ann: RulesetAnnounce,
) -> Option<RulesetAnnounce> {
    match best {
        Some(b) => if ann.version > b.version {
            Some(ann)
        } else {
            Some(b)
        },
        None => Some(ann),
    }
}

/// The better of the best announcement so far and a new one: the new one only with a higher
/// version.
pub fn prefer_ruleset(best: Option<RulesetAnnounce>, ann: RulesetAnnounce) -> (r: Option<
    RulesetAnnounce,
>)
    ensures
        r == newer_ruleset(best, ann),
{
    match best {
        Some(b) => if ann.version > b.version {
            Some(ann)
        } else {
            Some(b)
        },
        None => Some(ann),
    }
}

/// Whoever has heard any snapshot announced adopts one of the highest tick that was heard.
pub proof fn law_freshest_snapshot_wins(heard: Seq<SnapshotAnnounce>)
    ensures
        freshest(heard) is Some <==> heard.len() > 0,
        freshest(heard) matches Some(b) ==> heard.contains(b),
        freshest(heard) matches Some(b) ==> forall|i: int|
            0 <= i < heard.len() ==> (#[trigger] heard[i]).tick <= b.tick,
    decreases heard.len(),
{
    if heard.len() > 0 {
        let rest = heard.drop_last();
        law_freshest_snapshot_wins(rest);
        if let Some(b) = freshest(rest) {
            let j = choose|j: int| 0 <= j < rest.len() && rest[j] == b;
            assert(heard[j] == b);
        }
        assert(heard[heard.len() - 1] == heard.last());
        assert forall|i: int| 0 <= i < heard.len() implies (#[trigger] heard[i]).tick <= freshest(
            heard,
        )->Some_0.tick by {
            if i < rest.len() {
                assert(rest[i] == heard[i]);
            }
        }
    }
}

/// A higher version wins: whoever has heard any ruleset announced adopts one of the highest version
/// that was heard.
pub proof fn law_highest_version_wins(heard: Seq<RulesetAnnounce>)
    ensures
        newest(heard) is Some <==> heard.len() > 0,
        newest(heard) matches Some(b) ==> heard.contains(b),
        newest(heard) matches Some(b) ==> forall|i: int|
            0 <= i < heard.len() ==> (#[trigger] heard[i]).version <= b.version,
    decreases heard.len(),
{
    if heard.len() > 0 {
        let rest = heard.drop_last();
        law_highest_version_wins(rest);
        if let Some(b) = newest(rest) {
            let j = choose|j: int| 0 <= j < rest.len() && rest[j] == b;
            assert(heard[j] == b);
        }
        assert(heard[heard.len() - 1] == heard.last());
        assert forall|i: int| 0 <= i < heard.len() implies (#[trigger] heard[i]).version <= newest(
            heard,
        )->Some_0.version by {
            if i < rest.len() {
                assert(rest[i] == heard[i]);
            }
        }
    }
}

/// What a watcher of a ruleset file remembers: the fingerprint of what it last read and the version
/// under which it last published.
#[derive(Debug, Clone, Copy, PartialEq, Eq, Structural)]
pub struct RulesetWatch {
    pub last_fingerprint: u64,
    pub last_version: u64,
}

impl RulesetWatch {
    /// A watcher that has read nothing, past the version that is in force.
    pub fn new(live_version: Option<u64>) -> (w: Self)
        ensures
            w.last_fingerprint == 0,
            w.last_version == (match live_version {
                Some(v) => v,
                None => 0,
            }),
    {
        RulesetWatch {
            last_fingerprint: 0,
            last_version: match live_version {
                Some(v) => v,
                None => 0,
            },
        }
    }

    /// The version under which to publish what the file holds, where it has changed: its own, or
    /// the next one where its own has been reached already.
    pub fn on_read(&mut self, fingerprint: u64, version: u64) -> (publish: Option<u64>)
        requires
            old(self).last_version < u64::MAX,
        ensures
            fingerprint == old(self).last_fingerprint ==> publish is None && *final(self) == *old(
                self,
            ),
            fingerprint != old(self).last_fingerprint ==> {
                &&& publish == Some(final(self).last_version)
                &&& final(self).last_fingerprint == fingerprint
                &&& final(self).last_version == (if version > old(self).last_version {
                    version as int
                } else {
                    old(self).last_version + 1
                })
            },
    {
        if fingerprint == self.last_fingerprint {
            return None;
        }
        self.last_fingerprint = fingerprint;
        self.last_version =
        if version > self.last_version {
            version
        } else {
            self.last_version + 1
        };
        Some(self.last_version)
    }
}

/// The standings of the pilots among the first `n` ships. The ships of a fleet are not ranked.
pub open spec fn pilots(ids: Seq<String>, ships: Seq<Ship>, n: nat) -> Seq<Standing>
    decreases n,
{
    if n == 0 {
        Seq::empty()
    } else {
        let rest = pilots(ids, ships, (n - 1) as nat);
        let s = ships[n - 1];
        if s.owner is None {
            rest.push(Standing { id: ids[n - 1], name: s.name, kills: s.body.kills })
        } else {
            rest
        }
    }
}

/// The standings of one sector.
pub fn board_for_sector(sim: &Sim) -> (b: Leaderboard)
    requires
        sim.wf(),
    ensures
        b.galaxy@ == GALAXY@,
        b.tick == sim.tick,
        b.standings@ == stably_sorted(
            pilots(
                sim.ships.key_order(),
                sim.ships.value_order(),
                sim.ships.key_order().len(),
            ),
        ),
{
    let ids = sim.ships.keys();
    let ships = sim.ships.values();
    let ghost f = |r: (String, String, u32)| crate::leaderboard::standing_of(r);
    let mut rows: Vec<(String, String, u32)> = Vec::new();
    let mut i: usize = 0;
    proof {
        sim.ships.lemma_orders();
        assert(rows@.map_values(f) =~= Seq::<Standing>::empty());
    }
    while i < ids.len()
        invariant
            i <= ids@.len() == ships@.len(),
            f == (|r: (String, String, u32)| crate::leaderboard::standing_of(r)),
            rows@.map_values(f) == pilots(ids@, ships@, i as nat),
        decreases ids@.len() - i,
    {
        let s = &ships[i];
        if s.owner.is_none() {
            let ghost before = rows@;
            let row: (String, String, u32) = (ids[i].clone(), s.name.clone(), s.body.kills);
            rows.push(row);
            assert(rows@.map_values(f) =~= before.map_values(f).push(f(row)));
        }
        i = i + 1;
    }
    Leaderboard::from_scores(GALAXY, sim.tick, rows)
}

/// What the capacity atlas says of a node.
#[derive(Debug, PartialEq)]
pub struct AtlasEntry {
    pub node_id: String,
    pub cpu_cores: u32,
    pub mem_mb: u32,
    pub running_jobs: u32,
    pub last_seen_secs: u64,
    pub tags: Vec<String>,
}

/// A measured round trip to a peer.
#[derive(Debug, PartialEq)]
pub struct Edge {
    pub peer: String,
    pub rtt_ms: u32,
}

/// A node that a sector may be placed on.
#[derive(Debug, PartialEq)]
pub struct HostCandidate {
    pub node_id: String,
    pub cpu_cores: u32,
    pub mem_mb: u32,
    pub running_jobs: u32,
    /// Round trip in milliseconds, where it was measured.
    pub rtt_ms: Option<u32>,
    pub can_host: bool,
}

pub open spec fn has_tag(tags: Seq<String>, tag: Seq<char>) -> bool {
    exists|i: int| 0 <= i < tags.len() && (#[trigger] tags[i])@ == tag
}

/// A node hosts sectors if it says so, or is of general purpose, or says nothing of itself.
pub open spec fn may_host(tags: Seq<String>) -> bool {
    has_tag(tags, "spacegame"@) || has_tag(tags, "docker"@) || has_tag(tags, "linux"@)
        || tags.len() == 0
}

/// The last round trip that was measured to a peer.
pub open spec fn measured(edges: Seq<Edge>, peer: Seq<char>) -> Option<u32>
    decreases edges.len(),
{
    if edges.len() == 0 {
        None
    } else if edges.last().peer@ == peer {
        Some(edges.last().rtt_ms)
    } else {
        measured(edges.drop_last(), peer)
    }
}

fn tagged(tags: &Vec<String>, tag: &str) -> (r: bool)
    ensures
        r == has_tag(tags@, tag@),
{
    let mut i: usize = 0;
    while i < tags.len()
        invariant
            i <= tags@.len(),
            forall|j: int| 0 <= j < i ==> (#[trigger] tags@[j])@ != tag@,
        decreases tags@.len() - i,
    {
        if same_text(tags[i].as_str(), tag) {
            assert(tags@[i as int]@ == tag@);
            return true;
        }
        i = i + 1;
    }
    false
}

fn latency_table(edges: &Vec<Edge>) -> (m: SortedMap<String, u32>)
    ensures
        m.wf(),
        forall|p: Seq<char>|
            #![trigger m@.contains_key(p)]
            #![trigger measured(edges@, p)]
            measured(edges@, p) == (if m@.contains_key(p) {
                Some(m@[p])
            } else {
                None
            }),
{
    let mut m: SortedMap<String, u32> = SortedMap::new();
    let mut i: usize = 0;
    while i < edges.len()
        invariant
            i <= edges@.len(),
            m.wf(),
            forall|p: Seq<char>|
                #![trigger m@.contains_key(p)]
                #![trigger measured(edges@.subrange(0, i as int), p)]
                measured(edges@.subrange(0, i as int), p) == (if m@.contains_key(p) {
                    Some(m@[p])
                } else {
                    None
                }),
        decreases edges@.len() - i,
    {
        let e = &edges[i];
        let ghost before = m@;
        let _ = m.insert(e.peer.clone(), e.rtt_ms);
        proof {
            let seen = edges@.subrange(0, i as int);
            let next = edges@.subrange(0, i + 1);
            assert(next.drop_last() =~= seen);
            assert(next.last() == *e);
            assert forall|p: Seq<char>| measured(next, p) == (if m@.contains_key(p) {
                Some(m@[p])
            } else {
                None
            }) by {
                assert(measured(seen, p) == (if before.contains_key(p) {
                    Some(before[p])
                } else {
                    None
                }));
            }
        }
        i = i + 1;
    }
    assert(edges@.subrange(0, i as int) =~= edges@);
    m
}

/// What the atlas and the measured latencies make of one node.
pub open spec fn is_candidate(c: HostCandidate, a: AtlasEntry, edges: Seq<Edge>) -> bool {
    &&& c.node_id == a.node_id
    &&& c.cpu_cores == a.cpu_cores
    &&& c.mem_mb == a.mem_mb
    &&& c.running_jobs == a.running_jobs
    &&& c.rtt_ms == measured(edges, a.node_id@)
    &&& c.can_host == may_host(a.tags@)
}

/// The nodes of the atlas, in its order, joined with the measured latencies.
pub fn candidates(atlas: &Vec<AtlasEntry>, edges: &Vec<Edge>) -> (r: Vec<HostCandidate>)
    ensures
        r@.len() == atlas@.len(),
        forall|i: int|
            #![trigger r@[i]]
            0 <= i < r@.len() ==> is_candidate(r@[i], atlas@[i], edges@),
{
    let rtt = latency_table(edges);
    let mut out: Vec<HostCandidate> = Vec::new();
    let mut i: usize = 0;
    while i < atlas.len()
        invariant
            i <= atlas@.len(),
            rtt.wf(),
            forall|p: Seq<char>|
                #![trigger rtt@.contains_key(p)]
                #![trigger measured(edges@, p)]
                measured(edges@, p) == (if rtt@.contains_key(p) {
                    Some(rtt@[p])
                } else {
                    None
                }),
            out@.len() == i,
            forall|j: int|
                #![trigger out@[j]]
                0 <= j < i ==> is_candidate(out@[j], atlas@[j], edges@),
        decreases atlas@.len() - i,
    {
        let a = &atlas[i];
        let rtt_ms: Option<u32> = match rtt.get(&a.node_id) {
            Some(ms) => Some(*ms),
            None => None,
        };
        let can_host: bool = tagged(&a.tags, "spacegame") || tagged(&a.tags, "docker") || tagged(
            &a.tags,
            "linux",
        ) || a.tags.len() == 0;
        out.push(
            HostCandidate {
                node_id: a.node_id.clone(),
                cpu_cores: a.cpu_cores,
                mem_mb: a.mem_mb,
                running_jobs: a.running_jobs,
                rtt_ms,
                can_host,
            },
        );
        i = i + 1;
    }
    out
}

/// A node as a place for a replica. How near its player is in the game cannot be seen from the mesh;
/// a short round trip stands for it.
pub open spec fn replica_of(c: HostCandidate) -> ReplicaCandidate {
    ReplicaCandidate {
        node_id: c.node_id,
        rtt_ms: c.rtt_ms,
        in_game_dist: match c.rtt_ms {
            Some(ms) => ms,
            None => UNMEASURED_DIST,
        },
        free_cores: c.cpu_cores,
        alive: true,
    }
}

/// The candidates as places for a replica.
pub fn replica_candidates(cands: &Vec<HostCandidate>) -> (r: Vec<ReplicaCandidate>)
    ensures
        r@ == cands@.map_values(|c: HostCandidate| replica_of(c)),
{
    let mut out: Vec<ReplicaCandidate> = Vec::new();
    let mut i: usize = 0;
    while i < cands.len()
        invariant
            i <= cands@.len(),
            out@.len() == i,
            forall|j: int| 0 <= j < i ==> #[trigger] out@[j] == replica_of(cands@[j]),
        decreases cands@.len() - i,
    {
        let c = &cands[i];
        out.push(
            ReplicaCandidate {
                node_id: c.node_id.clone(),
                rtt_ms: c.rtt_ms,
                in_game_dist: match c.rtt_ms {
                    Some(ms) => ms,
                    None => UNMEASURED_DIST,
                },
                free_cores: c.cpu_cores,
                alive: true,
            },
        );
        i = i + 1;
    }
    assert(out@ =~= cands@.map_values(|c: HostCandidate| replica_of(c)));
    out
}

/// What is asked of a host that is to run the cell of a sector.
#[derive(Debug, PartialEq)]
pub struct CellSpec {
    pub image: String,
    pub cmd: Vec<String>,
    pub cpu_cores: u32,
    pub mem_mb: u64,
    pub duration_secs: u64,
}

/// The order for the cell of a sector: the host runs this program for that sector.
pub fn sector_cell_spec(sector: &str, image: &str, duration_secs: u64) -> (s: CellSpec)
    ensures
        s.image@ == image@,
        views(s.cmd@) == seq!["spacegame"@, "host"@, "--sector"@, sector@],
        s.cpu_cores == MIN_CORES,
        s.mem_mb == MIN_MEM_MB,
        s.duration_secs == duration_secs,
{
    let mut cmd: Vec<String> = Vec::new();
    cmd.push("spacegame".to_string());
    cmd.push("host".to_string());
    cmd.push("--sector".to_string());
    cmd.push(sector.to_string());
    assert(views(cmd@) =~= seq!["spacegame"@, "host"@, "--sector"@, sector@]);
    CellSpec {
        image: image.to_string(),
        cmd,
        cpu_cores: MIN_CORES,
        mem_mb: MIN_MEM_MB as u64,
        duration_secs,
    }
}

/// The host can take a sector.
pub open spec fn is_capable(c: HostCandidate, min_cores: u32, min_mem_mb: u32) -> bool {
    c.can_host && c.cpu_cores >= min_cores && c.mem_mb >= min_mem_mb
}

/// How far away a host is; one that nobody has measured comes last.
pub open spec fn farness(rtt_ms: Option<u32>) -> int {
    match rtt_ms {
        Some(r) => r as int,
        None => u32::MAX + 1,
    }
}

/// The candidate at `at` can take a sector and is the nearest of those that can, the first on a tie.
pub open spec fn is_best(
    cands: Seq<HostCandidate>,
    min_cores: u32,
    min_mem_mb: u32,
    at: int,
) -> bool {
    &&& 0 <= at < cands.len()
    &&& is_capable(cands[at], min_cores, min_mem_mb)
    &&& forall|j: int|
        0 <= j < cands.len() && is_capable(#[trigger] cands[j], min_cores, min_mem_mb) ==> {
            &&& farness(cands[at].rtt_ms) <= farness(cands[j].rtt_ms)
            &&& j < at ==> farness(cands[at].rtt_ms) < farness(cands[j].rtt_ms)
        }
}

impl HostCandidate {
    pub fn is_capable(&self, min_cores: u32, min_mem_mb: u32) -> (r: bool)
        ensures
            r == is_capable(*self, min_cores, min_mem_mb),
    {
        self.can_host && self.cpu_cores >= min_cores && self.mem_mb >= min_mem_mb
    }
}

fn nearer(a: Option<u32>, b: Option<u32>) -> (r: bool)
    ensures
        r == (farness(a) < farness(b)),
{
    match (a, b) {
        (Some(x), Some(y)) => x < y,
        (Some(x), None) => true,
        (None, _) => false,
    }
}

/// Where a sector should run: on the nearest of the hosts that can take it.
pub fn best_host<'a>(cands: &'a Vec<HostCandidate>, min_cores: u32, min_mem_mb: u32) -> (r: Option<
    &'a HostCandidate,
>)
    ensures
        match r {
            Some(c) => exists|at: int| #[trigger]
                is_best(cands@, min_cores, min_mem_mb, at) && *c == cands@[at],
            None => forall|j: int|
                0 <= j < cands@.len() ==> !is_capable(#[trigger] cands@[j], min_cores, min_mem_mb),
        },
{
    let mut best: Option<usize> = None;
    let mut i: usize = 0;
    while i < cands.len()
        invariant
            i <= cands@.len(),
            match best {
                Some(b) => {
                    &&& b < i
                    &&& is_capable(cands@[b as int], min_cores, min_mem_mb)
                    &&& forall|j: int|
                        0 <= j < i && is_capable(#[trigger] cands@[j], min_cores, min_mem_mb) ==> {
                            &&& farness(cands@[b as int].rtt_ms) <= farness(cands@[j].rtt_ms)
                            &&& j < b ==> farness(cands@[b as int].rtt_ms) < farness(
                                cands@[j].rtt_ms,
                            )
                        }
                },
                None => forall|j: int|
                    0 <= j < i ==> !is_capable(#[trigger] cands@[j], min_cores, min_mem_mb),
            },
        decreases cands@.len() - i,
    {
        if cands[i].is_capable(min_cores, min_mem_mb) {
            match best {
                Some(b) => {
                    if nearer(cands[i].rtt_ms, cands[b].rtt_ms) {
                        best = Some(i);
                    }
                },
                None => {
                    best = Some(i);
                },
            }
        }
        i = i + 1;
    }
    match best {
        Some(b) => {
            assert(is_best(cands@, min_cores, min_mem_mb, b as int));
            Some(&cands[b])
        },
        None => None,
    }
}

fn rtt_to(edges: &Vec<Edge>, peer: &str) -> (r: Option<u32>)
    ensures
        r == measured(edges@, peer@),
{
    let mut i: usize = edges.len();
    assert(edges@.subrange(0, i as int) =~= edges@);
    while i > 0
        invariant
            i <= edges@.len(),
            measured(edges@.subrange(0, i as int), peer@) == measured(edges@, peer@),
        decreases i,
    {
        i = i - 1;
        proof {
            let upto = edges@.subrange(0, i + 1);
            assert(upto.last() == edges@[i as int]);
            assert(upto.drop_last() =~= edges@.subrange(0, i as int));
        }
        if same_text(edges[i].peer.as_str(), peer) {
            return Some(edges[i].rtt_ms);
        }
    }
    None
}

/// The host at `at` is the nearest, the first on a tie.
pub open spec fn is_nearest(hosts: Seq<String>, edges: Seq<Edge>, at: int) -> bool {
    &&& 0 <= at < hosts.len()
    &&& forall|j: int|
        0 <= j < hosts.len() ==> {
            let there = farness(measured(edges, (#[trigger] hosts[j])@));
            &&& farness(measured(edges, hosts[at]@)) <= there
            &&& j < at ==> farness(measured(edges, hosts[at]@)) < there
        }
}

/// The host that a client connects to: the nearest of those that have its sector.
pub fn nearest_host<'a>(hosts: &'a Vec<String>, edges: &Vec<Edge>) -> (r: Option<&'a String>)
    ensures
        r is None <==> hosts@.len() == 0,
        r is Some ==> exists|at: int| #[trigger]
            is_nearest(hosts@, edges@, at) && *r->0 == hosts@[at],
{
    if hosts.len() == 0 {
        return None;
    }
    let mut best: usize = 0;
    let mut best_rtt: Option<u32> = rtt_to(edges, hosts[0].as_str());
    let mut i: usize = 1;
    while i < hosts.len()
        invariant
            best < i <= hosts@.len(),
            best_rtt == measured(edges@, hosts@[best as int]@),
            forall|j: int|
                0 <= j < i ==> {
                    let there = farness(measured(edges@, (#[trigger] hosts@[j])@));
                    &&& farness(best_rtt) <= there
                    &&& j < best ==> farness(best_rtt) < there
                },
        decreases hosts@.len() - i,
    {
        let rtt: Option<u32> = rtt_to(edges, hosts[i].as_str());
        if nearer(rtt, best_rtt) {
            best = i;
            best_rtt = rtt;
        }
        i = i + 1;
    }
    assert(is_nearest(hosts@, edges@, best as int));
    Some(&hosts[best])
}

/// The host can take the cell of a sector.
pub open spec fn takes_cells() -> spec_fn(HostCandidate) -> bool {
    |c: HostCandidate| is_capable(c, MIN_CORES, MIN_MEM_MB)
}

/// The hosts that can take the cell of a sector.
pub open spec fn able(cands: Seq<HostCandidate>) -> Seq<Seq<char>> {
    cands.filter(takes_cells()).map_values(|c: HostCandidate| c.node_id@)
}

/// The host that a sector falls to among those that can take it. Every node computes the same one.
pub fn shard_owner(sector: &str, cands: &Vec<HostCandidate>) -> (r: Option<String>)
    ensures
        r is None <==> able(cands@).len() == 0,
        r matches Some(host) ==> exists|at: int| #[trigger]
            holds_shard(sector@, able(cands@), at) && host@ == able(cands@)[at],
{
    let ghost p = takes_cells();
    let ghost f = |c: HostCandidate| c.node_id@;
    let mut ids: Vec<String> = Vec::new();
    let mut i: usize = 0;
    proof {
        reveal(Seq::filter);
        assert(cands@.subrange(0, 0) =~= Seq::<HostCandidate>::empty());
        assert(views(ids@) =~= cands@.subrange(0, 0).filter(p).map_values(f));
    }
    while i < cands.len()
        invariant
            i <= cands@.len(),
            p == takes_cells(),
            f == (|c: HostCandidate| c.node_id@),
            views(ids@) == cands@.subrange(0, i as int).filter(p).map_values(f),
        decreases cands@.len() - i,
    {
        let c = &cands[i];
        let ghost seen = cands@.subrange(0, i as int);
        proof {
            assert(cands@.subrange(0, i + 1) =~= seen.push(*c));
            lemma_filter_push(seen, *c, p);
        }
        if c.is_capable(MIN_CORES, MIN_MEM_MB) {
            let ghost before = ids@;
            ids.push(c.node_id.clone());
            assert(views(ids@) =~= views(before).push(c.node_id@));
            assert(seen.filter(p).push(*c).map_values(f) =~= seen.filter(p).map_values(f).push(c.node_id@));
        }
        i = i + 1;
    }
    assert(cands@.subrange(0, i as int) =~= cands@);
    match shard_for(sector, &ids) {
        Some(host) => {
            proof {
                let at = choose|at: int| #[trigger]
                    holds_shard(sector@, views(ids@), at) && *host == ids@[at];
                assert(able(cands@)[at] == host@);
            }
            Some(host.clone())
        },
        None => None,
    }
}

/// The neighbour needs a host of its own: it is not the sector itself, and nobody hosts it.
pub open spec fn wants_host(here: SectorId) -> spec_fn((SectorId, bool)) -> bool {
    |n: (SectorId, bool)| n.0 != here && !n.1
}

/// The tokens of the neighbours of a sector that a busy host has placed: those of its neighbourhood,
/// each with whether it has a host already. A sector whose token names none has no neighbours.
pub fn to_prewarm(sector: &str, neighbourhood: &Vec<(SectorId, bool)>) -> (r: Vec<SectorId>)
    ensures
        r@ == (match sector_of_token(sector@) {
            Some(here) => neighbourhood@.filter(wants_host(here)).map_values(
                |n: (SectorId, bool)| n.0,
            ),
            None => Seq::empty(),
        }),
{
    let mut out: Vec<SectorId> = Vec::new();
    let here: SectorId = match SectorId::parse(sector) {
        Some(s) => s,
        None => {
            return out;
        },
    };
    let ghost p = wants_host(here);
    let ghost f = |n: (SectorId, bool)| n.0;
    let mut i: usize = 0;
    proof {
        reveal(Seq::filter);
        assert(neighbourhood@.subrange(0, 0) =~= Seq::<(SectorId, bool)>::empty());
        assert(out@ =~= neighbourhood@.subrange(0, 0).filter(p).map_values(f));
    }
    while i < neighbourhood.len()
        invariant
            i <= neighbourhood@.len(),
            p == wants_host(here),
            f == (|n: (SectorId, bool)| n.0),
            out@ == neighbourhood@.subrange(0, i as int).filter(p).map_values(f),
        decreases neighbourhood@.len() - i,
    {
        let n: (SectorId, bool) = neighbourhood[i];
        let ghost seen = neighbourhood@.subrange(0, i as int);
        proof {
            assert(neighbourhood@.subrange(0, i + 1) =~= seen.push(n));
            lemma_filter_push(seen, n, p);
        }
        if n.0 != here && !n.1 {
            out.push(n.0);
            assert(out@ =~= seen.filter(p).push(n).map_values(f));
        }
        i = i + 1;
    }
    assert(neighbourhood@.subrange(0, i as int) =~= neighbourhood@);
    out
}

/// Which host is picked for a sector: one that may host and has the cores and the memory, such that no other that does has a shorter round
/// trip. One whose round trip was measured comes before one whose was not; of equal ones the first.
pub proof fn law_best_host_is_the_nearest(
    cands: Seq<HostCandidate>,
    min_cores: u32,
    min_mem_mb: u32,
    at: int,
    j: int,
)
    requires
        is_best(cands, min_cores, min_mem_mb, at),
        0 <= j < cands.len(),
        cands[j].can_host,
        cands[j].cpu_cores >= min_cores,
        cands[j].mem_mb >= min_mem_mb,
    ensures
        cands[at].can_host && cands[at].cpu_cores >= min_cores && cands[at].mem_mb >= min_mem_mb,
        cands[j].rtt_ms matches Some(r) ==> (cands[at].rtt_ms matches Some(b) && b <= r),
        cands[at].rtt_ms is None ==> cands[j].rtt_ms is None,
        cands[j].rtt_ms == cands[at].rtt_ms ==> at <= j,
{
    assert(is_capable(cands[j], min_cores, min_mem_mb));
}

/// The nearest of some hosts has the shortest measured round trip, the first of equal ones; a host that was not measured is nearest only
/// where none was.
pub proof fn law_nearest_host(hosts: Seq<String>, edges: Seq<Edge>, at: int, j: int)
    requires
        is_nearest(hosts, edges, at),
        0 <= j < hosts.len(),
    ensures
        0 <= at < hosts.len(),
        measured(edges, hosts[j]@) matches Some(r) ==> (measured(edges, hosts[at]@) matches Some(b) && b
            <= r),
        measured(edges, hosts[at]@) == measured(edges, hosts[j]@) ==> at <= j,
{
    assert(farness(measured(edges, hosts[at]@)) <= farness(measured(edges, hosts[j]@)));
}

/// The last measurement of a peer counts, and those of others do not matter.
pub proof fn law_last_measurement_counts(edges: Seq<Edge>, e: Edge, peer: Seq<char>)
    ensures
        measured(Seq::empty(), peer) is None,
        e.peer@ == peer ==> measured(edges.push(e), peer) == Some(e.rtt_ms),
        e.peer@ != peer ==> measured(edges.push(e), peer) == measured(edges, peer),
{
    assert(edges.push(e).drop_last() =~= edges);
}

/// A node of the atlas may host where it says so, by any of three tags, or says nothing at all.
pub proof fn law_who_may_host(tags: Seq<String>, i: int)
    ensures
        tags.len() == 0 ==> may_host(tags),
        0 <= i < tags.len() && (tags[i]@ == "spacegame"@ || tags[i]@ == "docker"@ || tags[i]@ == "linux"@)
            ==> may_host(tags),
        tags.len() > 0 && (forall|k: int|
            0 <= k < tags.len() ==> (#[trigger] tags[k])@ != "spacegame"@ && tags[k]@ != "docker"@
                && tags[k]@ != "linux"@) ==> !may_host(tags),
{
    if 0 <= i < tags.len() {
        assert(tags[i] == tags[i]);
    }
}

/// A node of the atlas is a candidate with its own figures, and with the round trip that was measured to it; as a replica it is as far as its
/// round trip is long, 150 where that is not known.
pub proof fn law_candidates_are_what_the_atlas_says(c: HostCandidate, a: AtlasEntry, edges: Seq<Edge>)
    requires
        is_candidate(c, a, edges),
    ensures
        c.node_id == a.node_id && c.cpu_cores == a.cpu_cores && c.mem_mb == a.mem_mb && c.running_jobs
            == a.running_jobs,
        c.rtt_ms == measured(edges, a.node_id@),
        c.rtt_ms is None ==> replica_of(c).in_game_dist == 150,
        c.rtt_ms matches Some(ms) ==> replica_of(c).in_game_dist == ms,
        replica_of(c).alive && replica_of(c).rtt_ms == c.rtt_ms && replica_of(c).free_cores == c.cpu_cores
            && replica_of(c).node_id == c.node_id,
{
}

/// The standings of a sector are those of its players, each with their own kills, in the order of their ids; ships of a fleet have none.
pub proof fn law_pilots_stand(ids: Seq<String>, ships: Seq<Ship>, n: nat)
    requires
        n < ships.len(),
    ensures
        pilots(ids, ships, 0).len() == 0,
        ships[n as int].owner is Some ==> pilots(ids, ships, n + 1) == pilots(ids, ships, n),
        ships[n as int].owner is None ==> {
            let after = pilots(ids, ships, n + 1);
            &&& after.drop_last() == pilots(ids, ships, n)
            &&& after.len() == pilots(ids, ships, n).len() + 1
            &&& after.last().id == ids[n as int]
            &&& after.last().name == ships[n as int].name
            &&& after.last().kills == ships[n as int].body.kills
        },
{
    if ships[n as int].owner is None {
        assert(pilots(ids, ships, n + 1).drop_last() =~= pilots(ids, ships, n));
    }
}

/// A neighbour is given a host where it has none, and is not the sector itself.
pub proof fn law_who_wants_a_host(here: SectorId, n: SectorId, hosted: bool)
    ensures
        wants_host(here)((n, hosted)) <==> !hosted && (n.sx != here.sx || n.sy != here.sy),
{
}

/// Where some host is capable there is a best one, and of some hosts one is the nearest.
pub proof fn law_some_host_is_best(cands: Seq<HostCandidate>, min_cores: u32, min_mem_mb: u32, j: int)
    requires
        0 <= j < cands.len(),
        cands[j].can_host,
        cands[j].cpu_cores >= min_cores,
        cands[j].mem_mb >= min_mem_mb,
    ensures
        exists|at: int| is_best(cands, min_cores, min_mem_mb, at),
    decreases cands.len(),
{
    let rest = cands.drop_last();
    let last = cands.len() - 1;
    assert forall|i: int| 0 <= i < rest.len() implies #[trigger] cands[i] == rest[i] by {}
    if exists|i: int| 0 <= i < rest.len() && is_capable(#[trigger] rest[i], min_cores, min_mem_mb) {
        let i = choose|i: int| 0 <= i < rest.len() && is_capable(#[trigger] rest[i], min_cores, min_mem_mb);
        law_some_host_is_best(rest, min_cores, min_mem_mb, i);
        let at = choose|at: int| is_best(rest, min_cores, min_mem_mb, at);
        let here = if is_capable(cands[last], min_cores, min_mem_mb) && farness(cands[last].rtt_ms)
            < farness(cands[at].rtt_ms) {
            last
        } else {
            at
        };
        assert forall|k: int|
            0 <= k < cands.len() && is_capable(#[trigger] cands[k], min_cores, min_mem_mb) implies {
            &&& farness(cands[here].rtt_ms) <= farness(cands[k].rtt_ms)
            &&& k < here ==> farness(cands[here].rtt_ms) < farness(cands[k].rtt_ms)
        } by {
            if k < last {
                assert(is_capable(rest[k], min_cores, min_mem_mb));
            }
        }
        assert(is_best(cands, min_cores, min_mem_mb, here));
    } else {
        assert(j == last) by {
            if j < last {
                assert(is_capable(rest[j], min_cores, min_mem_mb));
            }
        }
        assert forall|k: int|
            0 <= k < cands.len() && is_capable(#[trigger] cands[k], min_cores, min_mem_mb) implies k
            == last by {
            if k < last {
                assert(is_capable(rest[k], min_cores, min_mem_mb));
            }
        }
        assert(is_best(cands, min_cores, min_mem_mb, last));
    }
}

/// A sector falls to one of the nodes that can take a cell: those that may host, with a core and 128 MB.
pub proof fn law_able_nodes(cands: Seq<HostCandidate>, c: HostCandidate)
    ensures
        c.can_host && c.cpu_cores >= 1 && c.mem_mb >= 128 ==> able(cands.push(c)) == able(cands).push(
            c.node_id@,
        ),
        !(c.can_host && c.cpu_cores >= 1 && c.mem_mb >= 128) ==> able(cands.push(c)) == able(cands),
        able(Seq::empty()).len() == 0,
{
    reveal(Seq::filter);
    let p = takes_cells();
    lemma_filter_push(cands, c, p);
    let f = |c: HostCandidate| c.node_id@;
    if p(c) {
        assert(cands.filter(p).push(c).map_values(f) =~= cands.filter(p).map_values(f).push(c.node_id@));
    }
}

/// A later announcement counts only where it is of a later tick, or of a higher version.
pub proof fn law_announcements(a: SnapshotAnnounce, b: SnapshotAnnounce, r: RulesetAnnounce, s: RulesetAnnounce)
    ensures
        later_snapshot(None, a) == Some(a),
        later_snapshot(Some(a), b) == Some(
            if b.tick > a.tick {
                b
            } else {
                a
            },
        ),
        newer_ruleset(None, r) == Some(r),
        newer_ruleset(Some(r), s) == Some(
            if s.version > r.version {
                s
            } else {
                r
            },
        ),
{
}

} // verus!
