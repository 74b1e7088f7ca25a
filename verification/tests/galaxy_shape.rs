use spacegame::autoscale::{AutoscalePolicy, Autoscaler, Ownership, ScaleAction};
use spacegame::cell::{CellRuntime, CellTransition, TickMeter, WINDOW};
use spacegame::cosmos::{region_from_rtt, GatewayRtt, NodeConfig, Player, Roles};
use spacegame::fleet::{CapacitySource, Fleet, HostNode, Quote, RegionHint, Surge};
use spacegame::galaxy::{CellId, CellLoad, Galaxy, ScalePolicy, Verdict, World, MAX_DEPTH};
use spacegame::galaxywire::ShapeOp;
use spacegame::orchestrator::{Committed, Orchestrator, WorldView};
use spacegame::order::SortedMap;
use spacegame::partition::{child_for, is_lossless, merge_entities, split_entities, Positioned};

#[test]
fn children_parent_roundtrip() {
    let c = CellId { depth: 3, x: 5, y: 6 };
    for ch in c.children() {
        assert_eq!(ch.parent(), Some(c));
    }
}

#[test]
fn point_resolves_into_its_cell_rect() {
    let c = CellId::at_depth_for(10, 1234, -5678);
    assert!(c.rect().contains(1234, -5678));
}

#[test]
fn hot_cell_splits_cold_cell_merges() {
    let p = ScalePolicy::default();
    let hot = CellLoad { players: 500, entities: 50, tick_p99_us: 1000, bandwidth_bps: 0, epoch: 1 };
    assert_eq!(hot.verdict(4, &p), Verdict::Split);
    let cold = CellLoad { players: 1, entities: 1, tick_p99_us: 10, bandwidth_bps: 0, epoch: 1 };
    assert_eq!(cold.verdict(4, &p), Verdict::Merge);
    assert_eq!(cold.verdict(0, &p), Verdict::Hold, "root never merges upward");
}

#[test]
fn galaxy_split_then_resolve() {
    let mut g = Galaxy::genesis();
    g.split(CellId::root());
    let leaf = g.leaf_at(1, 1);
    assert_eq!(leaf.depth, 1, "after splitting root, points resolve to depth-1 leaves");
    assert!(g.is_leaf(&leaf));
}

#[test]
fn a_merge_undoes_a_split() {
    let mut g = Galaxy::genesis();
    g.split(CellId::root());
    assert_eq!(g.leaves().len(), 4);
    g.merge(CellId::root());
    assert_eq!(g.leaves(), &vec![CellId::root()]);
}

#[test]
fn the_deepest_cell_has_no_children() {
    let c = CellId { depth: MAX_DEPTH, x: 7, y: 9 };
    assert!(c.children().is_empty());
    assert!(c.is_valid());
    assert!(!CellId { depth: 1, x: 2, y: 0 }.is_valid());
    assert_eq!(CellId::root().parent(), None);
    assert_eq!(CellId::root().ring().len(), 0);
}

#[test]
fn tokens_name_cells() {
    let c = CellId { depth: 12, x: 345, y: 6 };
    assert_eq!(c.token(), "12.345.6");
    assert_eq!(CellId::parse("12.345.6"), Some(c));
    assert_eq!(CellId::parse("12.345"), None);
    assert_eq!(CellId::parse("31.0.0"), None);
    assert_eq!(CellId::parse("1.x.0"), None);
    let mut keys: Vec<u128> = c.children().iter().map(|k| k.morton()).collect();
    keys.push(c.morton());
    keys.sort();
    keys.dedup();
    assert_eq!(keys.len(), 5, "every cell has a key of its own");
}

fn loads_one(cell: CellId, l: CellLoad) -> SortedMap<CellId, CellLoad> {
    let mut m = SortedMap::new();
    m.insert(cell, l);
    m
}

fn fleet_with(n: usize) -> Fleet {
    let hosts = (0..n)
        .map(|i| HostNode {
            node_id: format!("h{i}"),
            source: CapacitySource::Donated,
            cores: 8,
            mem_mb: 16000,
            region: RegionHint("eu".into()),
            cells: 0,
            cell_budget: 4,
            load_permille: 100,
            price_per_min: 0,
            last_seen: 0,
        })
        .collect();
    Fleet { hosts, cell_boot: String::new() }
}

struct OwnsAll;

impl Ownership for OwnsAll {
    fn owns(&self, _cell: &CellId) -> bool {
        true
    }
}

#[test]
fn hot_owned_cell_splits_after_dwell() {
    let mut a = Autoscaler::new(AutoscalePolicy::default());
    let mut g = Galaxy::genesis();
    g.split(CellId::root());
    let leaf = g.leaves()[0];
    let hot = CellLoad { players: 9999, entities: 0, tick_p99_us: 0, bandwidth_bps: 0, epoch: 1 };
    let fleet = fleet_with(4);
    let owns = OwnsAll;
    let mut fired = None;
    for e in 1..=5 {
        let acts = a.decide(e, &g, &loads_one(leaf, hot), &fleet, &owns);
        if let Some(ScaleAction::Split { cell, .. }) = acts.into_iter().next() {
            fired = Some(cell);
            break;
        }
    }
    assert_eq!(fired, Some(leaf));
}

fn donor(id: &str, region: &str, free: u32, price: u64, load_permille: u32) -> HostNode {
    HostNode {
        node_id: id.into(),
        source: CapacitySource::Donated,
        cores: 8,
        mem_mb: 16_000,
        region: RegionHint(region.into()),
        cells: 0,
        cell_budget: free,
        load_permille,
        price_per_min: price,
        last_seen: 0,
    }
}

#[test]
fn places_in_region_and_prefers_cheap_donor() {
    let fleet = Fleet {
        hosts: vec![
            donor("far", "us-east", 4, 0, 100),
            donor("near-cheap", "eu-west", 4, 5, 200),
            donor("near-pricey", "eu-west", 4, 50, 200),
        ],
        cell_boot: String::new(),
    };
    let pick = fleet.best_host_for(&CellId::root(), &RegionHint("eu-west".into()));
    assert_eq!(pick.as_deref(), Some("near-cheap"));
}

#[test]
fn full_fleet_yields_no_host() {
    let mut n = donor("x", "eu", 1, 0, 100);
    n.cells = 1;
    let fleet = Fleet { hosts: vec![n], cell_boot: String::new() };
    assert!(fleet.best_host_for(&CellId::root(), &RegionHint("eu".into())).is_none());
}

#[test]
fn a_surge_asks_the_cheapest_provider_first() {
    let quotes = vec![Quote { provider: 0, price_per_min: 9 }, Quote { provider: 1, price_per_min: 2 }];
    let mut s = Surge::start(3, quotes);
    assert_eq!(s.next_request(), Some((1, 3)));
    let mut fleet = fleet_with(0);
    s.on_provisioned(&mut fleet, vec![donor("b0", "eu", 4, 0, 0)]);
    assert_eq!(fleet.hosts.len(), 1);
    assert_eq!(s.next_request(), Some((0, 2)), "what did not land is asked of the next");
    s.on_provisioned(&mut fleet, vec![donor("b1", "eu", 4, 0, 0), donor("b2", "eu", 4, 0, 0)]);
    assert_eq!(s.next_request(), None);
}

#[test]
fn draining_destroys_rented_nodes_only() {
    let mut rented = donor("r", "eu", 4, 3, 0);
    rented.source = CapacitySource::CloudBurst {
        provider: "hetzner".into(),
        region: "eu".into(),
        instance_id: "i-1".into(),
    };
    let mut fleet = Fleet { hosts: vec![donor("d", "eu", 4, 0, 0), rented], cell_boot: String::new() };
    assert!(fleet.drain(&"d".to_string()).is_none());
    fleet.hosts[1].cells = 2;
    assert!(fleet.drain(&"r".to_string()).is_none(), "its cells have to go first");
    assert_eq!(fleet.hosts.len(), 2);
    assert_eq!(fleet.hosts[1].cell_budget, 2, "and no new ones land on it");
    fleet.hosts[1].cells = 0;
    let gone = fleet.drain(&"r".to_string()).unwrap();
    assert_eq!(fleet.hosts.len(), 1);
    assert_eq!(gone.provider, "hetzner");
    assert_eq!(gone.instance_id, "i-1");
    assert!(fleet.drain(&"nobody".to_string()).is_none());
}

#[test]
fn ownership_is_unique_and_stable() {
    let controllers: Vec<String> = (0..7).map(|i| format!("ctrl-{i}")).collect();
    let cell = CellId { depth: 5, x: 9, y: 4 };
    let owner = Orchestrator::owner(&cell, &controllers).unwrap();
    assert_eq!(Orchestrator::owner(&cell, &controllers).unwrap(), owner);
    let without_other: Vec<String> =
        controllers.iter().filter(|c| **c != "ctrl-0" || owner == "ctrl-0").cloned().collect();
    assert_eq!(Orchestrator::owner(&cell, &without_other).unwrap(), owner);
}

#[test]
fn ownership_spreads_across_controllers() {
    let controllers: Vec<String> = (0..5).map(|i| format!("c{i}")).collect();
    let mut seen = std::collections::BTreeSet::new();
    for x in 0..200u32 {
        let c = CellId { depth: 6, x, y: 1 };
        seen.insert(Orchestrator::owner(&c, &controllers).unwrap());
    }
    assert!(seen.len() >= 4, "cells should distribute across most controllers, got {seen:?}");
}

#[test]
fn nobody_owns_without_controllers() {
    assert_eq!(Orchestrator::owner(&CellId::root(), &Vec::new()), None);
}

#[test]
fn a_pass_commits_what_the_owner_decided() {
    let mut g = Galaxy::genesis();
    g.split(CellId::root());
    let leaf = g.leaves()[2];
    let hot = CellLoad { players: 9999, entities: 0, tick_p99_us: 0, bandwidth_bps: 0, epoch: 1 };
    let mut o = Orchestrator {
        autoscaler: Autoscaler::new(AutoscalePolicy::default()),
        cell_image: "img".into(),
        max_bid_per_min: 10,
    };
    let mut view = WorldView {
        epoch: 1,
        galaxy: g,
        loads: loads_one(leaf, hot),
        fleet: fleet_with(4),
        controllers: vec!["me".into()],
        me: "me".into(),
    };
    let mut split = None;
    for e in 1..=5 {
        view.epoch = e;
        for c in o.pass(&view) {
            if let Committed::Reshape { op, cell, hosts } = c {
                split = Some((op, cell, hosts.len()));
            }
        }
        if split.is_some() {
            break;
        }
    }
    assert_eq!(split, Some(("split", leaf, 4)));
    view.controllers = vec!["somebody".into()];
    for e in 10..=20 {
        view.epoch = e;
        assert!(o.pass(&view).iter().all(|c| !matches!(c, Committed::Reshape { .. })));
    }
}

#[derive(Clone)]
struct E {
    id: u64,
    x: World,
    y: World,
}

impl Positioned for E {
    fn pos(&self) -> (World, World) {
        (self.x, self.y)
    }
    fn entity_id(&self) -> u64 {
        self.id
    }
}

#[test]
fn entities_partition_into_their_quadrant() {
    let parent = CellId::root();
    let r = parent.rect();
    let (cx, cy) = r.center();
    let nw = E { id: 1, x: cx - 10, y: cy - 10 };
    let ne = E { id: 2, x: cx + 10, y: cy - 10 };
    let sw = E { id: 3, x: cx - 10, y: cy + 10 };
    let se = E { id: 4, x: cx + 10, y: cy + 10 };
    let kids = parent.children();
    assert_eq!(child_for(parent, &nw), kids[0]);
    assert_eq!(child_for(parent, &ne), kids[1]);
    assert_eq!(child_for(parent, &sw), kids[2]);
    assert_eq!(child_for(parent, &se), kids[3]);
}

#[test]
fn split_is_lossless_and_merge_is_inverse() {
    let parent = CellId { depth: 3, x: 2, y: 5 };
    let r = parent.rect();
    let mut es = Vec::new();
    for i in 0..200u64 {
        let fx = (i as World * 37) % r.span;
        let fy = (i as World * 53) % r.span;
        es.push(E { id: i, x: r.x + fx, y: r.y + fy });
    }
    assert!(is_lossless(parent, es.clone()));
    let buckets = split_entities(parent, es.clone());
    let merged = merge_entities(buckets);
    assert_eq!(merged.len(), es.len(), "merge restores every entity exactly once");
    let mut ids: Vec<u64> = merged.iter().map(|e| e.id).collect();
    ids.sort();
    assert_eq!(ids, (0..200).collect::<Vec<u64>>());
}

#[test]
fn p99_tracks_the_tail() {
    let mut m = TickMeter::new();
    assert_eq!(m.p99(), 0);
    for _ in 0..99 {
        m.record(1000);
    }
    m.record(50_000);
    assert!(m.p99() >= 1000, "p99 reflects the window incl. the tail");
    assert_eq!(m.p99(), 50_000);
    m.record(1000);
    assert_eq!(m.p99(), 1000, "one tick in more than a hundred is not the tail");
}

#[test]
fn the_window_forgets_the_oldest_tick() {
    let mut m = TickMeter::new();
    m.record(9);
    for _ in 0..WINDOW {
        m.record(1);
    }
    assert_eq!(m.samples.len(), WINDOW);
    assert!(m.samples.iter().all(|s| *s == 1));
}

#[test]
fn split_commit_for_my_cell_triggers_split() {
    let rt = CellRuntime::new(CellId { depth: 1, x: 0, y: 0 }, (), "host".into());
    let op = ShapeOp::Split {
        cell: rt.cell,
        children: rt.cell.children().try_into().unwrap(),
        place_on: ["a".into(), "b".into(), "c".into(), "d".into()],
        from_snapshot: "Qm".into(),
    };
    assert!(matches!(rt.on_shape(&op), CellTransition::SplitInto { .. }));
}

#[test]
fn a_cell_reacts_to_reshapes_of_its_own() {
    let cell = CellId { depth: 2, x: 1, y: 3 };
    let parent = cell.parent().unwrap();
    let rt = CellRuntime::new(cell, (), "host".into());
    let merge = ShapeOp::Merge {
        parent,
        from_snapshots: ["1".into(), "2".into(), "3".into(), "4".into()],
        place_on: "h".into(),
    };
    assert_eq!(rt.on_shape(&merge), CellTransition::MergeUp { parent });
    let away = ShapeOp::Migrate { cell, from: "host".into(), to: "next".into(), snapshot: "S".into() };
    assert_eq!(rt.on_shape(&away), CellTransition::HandOff { to: "next".into(), snapshot: "S".into() });
    let other = ShapeOp::Migrate {
        cell: CellId { depth: 2, x: 0, y: 0 },
        from: "host".into(),
        to: "next".into(),
        snapshot: "S".into(),
    };
    assert_eq!(rt.on_shape(&other), CellTransition::Stay);
    let place = ShapeOp::Place { cell, node: "n".into(), from_snapshot: None };
    assert_eq!(rt.on_shape(&place), CellTransition::Stay);
}

#[test]
fn a_load_frame_carries_what_was_measured() {
    let mut rt = CellRuntime::new(CellId { depth: 1, x: 1, y: 0 }, (), "host".into());
    rt.measure(700, 12_345, 9);
    let f = rt.load_frame(3, 40);
    assert_eq!(f.host, "host");
    assert_eq!(
        f.load,
        CellLoad { players: 3, entities: 40, tick_p99_us: 700, bandwidth_bps: 12_345, epoch: 9 }
    );
    assert_eq!(rt.load_topic(), "ce-game/spacegame/1.1.0/load");
}

#[test]
fn crossing_a_cell_edge_reports_a_transit() {
    let mut g = Galaxy::genesis();
    g.split(CellId::root());
    let mut p = Player { id: "me".into(), galaxy: g, x: -1, y: -1, view: 100, cell: CellId::root() };
    p.cell = p.galaxy.leaf_at(p.x, p.y);
    let start = p.cell;
    let crossed = p.moved_to(1, 1);
    assert!(crossed.is_some());
    assert_ne!(crossed.unwrap(), start);
    assert_eq!(p.moved_to(2, 2), None, "no transit inside of a cell");
}

#[test]
fn interest_is_bounded() {
    let p = Player {
        id: "me".into(),
        galaxy: Galaxy::genesis(),
        x: 0,
        y: 0,
        view: 1000,
        cell: CellId::root(),
    };
    assert!(p.interest().len() <= 9);
}

#[test]
fn a_split_under_a_player_moves_it_to_the_finer_cell() {
    let mut p = Player::join("me".into(), 500);
    assert_eq!(p.cell, CellId::root());
    let mut g = Galaxy::genesis();
    g.split(CellId::root());
    let finer = p.on_reshape(g).unwrap();
    assert_eq!(finer.depth, 1);
    assert_eq!(p.cell, finer);
}

#[test]
fn a_node_donates_unless_told_otherwise() {
    let c = NodeConfig::default();
    assert_eq!(c.roles, Roles::donor());
    assert!(c.roles.host && c.roles.controller && !c.roles.gateway);
    assert_eq!(c.cell_image, "ce-net/spacegame:latest");
    assert_eq!(c.max_bid_per_min, 1_000);
    assert_eq!(Roles::edge(), Roles { host: false, controller: false, gateway: true });
    assert!(Roles::everything().gateway && Roles::everything().host);
    let rtts = vec![GatewayRtt { gateway: "g".into(), rtt_ms: 12 }];
    assert_eq!(region_from_rtt(&rtts).0, "unknown");
}
