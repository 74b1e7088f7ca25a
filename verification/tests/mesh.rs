use spacegame::director::{
    board_for_sector, candidates, prefer_ruleset, prefer_snapshot, proof_topic, replica_candidates, replica_topic,
    ruleset_service, ruleset_topic, seal_topic, sector_cell_spec, snapshot_service, snapshot_topic, to_prewarm,
    transit_topic, AtlasEntry, Edge, RulesetAnnounce, RulesetWatch, SnapshotAnnounce, GALAXY,
};
use spacegame::frontier::{Cartography, Discovery, ExplorerRecord, Frontier, FrontierEvent, Landmark, LandmarkKind};
use spacegame::fleet::RegionHint;
use spacegame::galaxy::{CellId, CellLoad};
use spacegame::galaxymap::{MapEventKind, MapModel};
use spacegame::galaxywire::{ControlView, Heartbeat, LoadFrame, ShapeOp};
use spacegame::gateway::{Attachment, Gateway, GatewayDirectory};
use spacegame::hosting::SectorLoop;
use spacegame::node::{NodeLoop, NodeOpts};
use spacegame::leaderboard::{Commitment, Leaderboard};
use spacegame::shard::SectorId;
use spacegame::sim::Sim;
use spacegame::wire::{topics, ClientMsg};
use spacegame::SectorConfig;

#[test]
fn first_entry_charts_and_advances_the_frontier() {
    let mut f = Frontier::genesis();
    let origin = CellId::at_depth_for(12, 0, 0);
    let target = *origin.ring().first().unwrap();
    let ev = f.enter("a quiet place", 1, target, &"explorer".into(), 42);
    match ev {
        FrontierEvent::FirstDiscovery { discovery, advanced, genesis } => {
            assert_eq!(discovery.by, "explorer");
            assert_eq!(discovery.epoch, 42);
            assert_eq!(*genesis, "a quiet place");
            assert!(f.is_charted(&target));
            assert!(!advanced.is_empty(), "the frontier surfaced new void neighbours");
        }
        _ => panic!("expected a first discovery into the void"),
    }
    assert!(matches!(f.enter("again", 1, target, &"other".into(), 43), FrontierEvent::Revealed(_)));
    assert_eq!(f.charted_count(), 2);
    assert!(f.ring().contains(&target), "the new cell borders the void");
}

#[test]
fn discovery_is_first_claim_wins() {
    let mut carto = Cartography::default();
    let cell = CellId { depth: 12, x: 100, y: 100 };
    assert!(carto.claim_discovery(Discovery { cell, by: "early".into(), epoch: 10, ring: 5 }));
    assert!(!carto.claim_discovery(Discovery { cell, by: "late".into(), epoch: 20, ring: 5 }));
    assert_eq!(carto.first_discoverer(&cell), Some(&"early".to_string()));
    assert_eq!(carto.leaderboard()[0].0, "early");
}

#[test]
fn a_landmark_name_sticks() {
    let mut carto = Cartography::default();
    let cell = CellId { depth: 12, x: 5, y: 5 };
    let lm = Landmark {
        cell,
        kind: LandmarkKind::System,
        name: "Leif's Star".into(),
        named_by: "leif".into(),
        epoch: 1,
    };
    assert!(carto.name_landmark(lm));
    let steal = Landmark {
        cell,
        kind: LandmarkKind::System,
        name: "Not Leif's".into(),
        named_by: "thief".into(),
        epoch: 2,
    };
    assert!(!carto.name_landmark(steal));
    assert_eq!(carto.landmarks(&cell)[0].name, "Leif's Star");
    assert!(carto.landmarks(&CellId { depth: 12, x: 6, y: 5 }).is_empty());
}

#[test]
fn split_event_reshapes_map_and_pulses() {
    let mut m = MapModel::new();
    let children: [CellId; 4] = CellId::root().children().try_into().unwrap();
    m.on_shape(
        7,
        &ShapeOp::Split {
            cell: CellId::root(),
            children,
            place_on: ["a".into(), "b".into(), "c".into(), "d".into()],
            from_snapshot: "Qm".into(),
        },
    );
    assert_eq!(m.summary().leaf_cells, 4);
    assert!(matches!(m.events.back().unwrap().kind, MapEventKind::Split { .. }));
    let s = m.ascii(150, 35_000, 12_000_000);
    assert!(s.contains("1.0.0") || s.contains("1.1.1"));
}

#[test]
fn the_map_counts_players_and_heat() {
    let mut m = MapModel::new();
    let load = CellLoad { players: 75, entities: 3, tick_p99_us: 35_000, bandwidth_bps: 0, epoch: 1 };
    m.on_load(LoadFrame { cell: CellId::root(), host: "h".into(), load });
    let s = m.summary();
    assert_eq!((s.players, s.host_nodes, s.leaf_cells, s.max_depth), (75, 1, 1, 0));
    let cells = m.cells();
    assert_eq!(cells[0].heat(150, 35_000, 12_000_000), 666, "the hottest signal counts");
    assert_eq!(cells[0].heat(150, 70_000, 12_000_000), 333);
    assert_eq!(cells[0].heat(10, 70_000, 12_000_000), 1000, "half as much again is the most");
}

#[test]
fn split_op_yields_four_leaves() {
    let cell = CellId { depth: 2, x: 1, y: 1 };
    let op = ShapeOp::Split {
        cell,
        children: cell.children().try_into().unwrap(),
        place_on: ["a".into(), "b".into(), "c".into(), "d".into()],
        from_snapshot: "Qm".into(),
    };
    assert_eq!(op.resulting_leaves().len(), 4);
}

fn beat(node: &str, epoch: u64) -> Heartbeat {
    Heartbeat {
        node: node.into(),
        hosts: true,
        controls: true,
        gateway: false,
        free_cell_slots: 4,
        load_permille: 100,
        region: "eu".into(),
        epoch,
    }
}

#[test]
fn dead_nodes_fade_from_the_view() {
    let mut cv = ControlView::new();
    cv.observe(beat("alive", 100));
    cv.observe(beat("dead", 90));
    cv.prune(100, 5);
    assert_eq!(cv.controllers(), vec!["alive".to_string()]);
    assert_eq!(cv.live_count(), 1);
    assert_eq!(cv.hosts().len(), 1);
    assert!(cv.gateways().is_empty());
}

fn gw(id: &str, region: &str, sessions: u32, budget: u32, load_permille: u32) -> Gateway {
    Gateway {
        node_id: id.into(),
        region: RegionHint(region.into()),
        endpoints: vec![format!("wss://{id}.gw.ce-net.com")],
        sessions,
        session_budget: budget,
        load_permille,
        last_seen: 0,
    }
}

#[test]
fn picks_nearest_accepting_gateway() {
    let dir = GatewayDirectory {
        gateways: vec![
            gw("far", "us", 0, 1000, 100),
            gw("near", "eu", 10, 1000, 200),
            gw("near-full", "eu", 1000, 1000, 990),
        ],
    };
    let pick = dir.pick(&RegionHint("eu".into()), 0).unwrap();
    assert_eq!(pick.node_id, "near", "in-region, accepting, least loaded");
    assert!(GatewayDirectory { gateways: vec![] }.pick(&RegionHint("eu".into()), 3).is_none());
}

#[test]
fn bridged_sessions_are_distinct_players() {
    let a = Attachment::BridgedSubkey { gateway: "g".into(), subkey_id: "sub-1".into() };
    let b = Attachment::BridgedSubkey { gateway: "g".into(), subkey_id: "sub-2".into() };
    assert_ne!(a.player_id(), b.player_id(), "even bridged browsers must not collapse to one player");
    let c = Attachment::InBrowserPeer { node_id: "n".into() };
    assert_eq!(c.player_id(), "n");
}

fn rows() -> Vec<(String, String, u32)> {
    vec![
        ("nodeB".into(), "Bee".into(), 7),
        ("nodeA".into(), "Ace".into(), 12),
        ("nodeC".into(), "Cy".into(), 7),
    ]
}

#[test]
fn board_is_canonically_ordered() {
    let lb = Leaderboard::from_scores("g1", 100, rows());
    let order: Vec<&str> = lb.standings.iter().map(|s| s.id.as_str()).collect();
    assert_eq!(order, vec!["nodeA", "nodeB", "nodeC"]);
    assert_eq!(lb.champion().unwrap().name, "Ace");
}

#[test]
fn ordering_is_independent_of_input_order() {
    let a = Leaderboard::from_scores("g1", 100, rows());
    let mut shuffled = rows();
    shuffled.reverse();
    let b = Leaderboard::from_scores("g1", 100, shuffled);
    assert_eq!(a, b);
    assert_eq!(a.encode().unwrap(), b.encode().unwrap());
    assert_eq!(a.digest(), b.digest());
}

#[test]
fn merge_sums_kills_across_sectors_order_independently() {
    let sector1 = || {
        Leaderboard::from_scores(
            "g1",
            50,
            vec![("nodeA".into(), "Ace".into(), 3), ("nodeB".into(), "Bee".into(), 1)],
        )
    };
    let sector2 = || {
        Leaderboard::from_scores(
            "g1",
            70,
            vec![("nodeA".into(), "Ace".into(), 4), ("nodeC".into(), "Cy".into(), 9)],
        )
    };
    let merged = Leaderboard::merge("g1", vec![sector1(), sector2()]);
    let merged_rev = Leaderboard::merge("g1", vec![sector2(), sector1()]);
    assert_eq!(merged, merged_rev, "merge is order-independent");
    assert_eq!(merged.tick, 70, "tick is the max across sectors");
    assert_eq!(merged.champion().unwrap().id, "nodeC");
    let a = merged.standings.iter().find(|s| s.id == "nodeA").unwrap();
    assert_eq!(a.kills, 7, "kills summed across sectors");
}

#[test]
fn digest_changes_when_a_score_changes() {
    let honest = Leaderboard::from_scores("g1", 5, rows());
    let mut tampered = rows();
    tampered[0].2 = 999;
    let bad = Leaderboard::from_scores("g1", 5, tampered);
    assert_ne!(honest.digest(), bad.digest(), "any score edit must change the digest");
}

#[test]
fn commitment_verifies_only_the_sealed_board() {
    let board = Leaderboard::from_scores("g1", 42, rows());
    let c = Commitment::seal(&board, "cid_abc", 1000, &"ff".repeat(32), "hostX");
    assert!(c.verifies(&board));
    assert_eq!(c.tick, 42);
    assert_eq!(c.height, 1000);

    let mut bad = rows();
    bad[1].2 += 1;
    let tampered = Leaderboard::from_scores("g1", 42, bad);
    assert!(!c.verifies(&tampered), "a tampered board fails verification");

    let other = Leaderboard::from_scores("g1", 43, rows());
    assert!(!c.verifies(&other));
    let other_galaxy = Leaderboard::from_scores("g2", 42, rows());
    assert!(!c.verifies(&other_galaxy));
}

#[test]
fn commitment_encodes_with_its_tag() {
    let board = Leaderboard::from_scores("g1", 9, rows());
    let c = Commitment::seal(&board, "cidZ", 77, &"ab".repeat(32), "h");
    let bytes = c.encode().unwrap();
    let v: serde_json::Value = serde_json::from_slice(&bytes).unwrap();
    assert_eq!(v["t"], "seal", "frontend switches on t === 'seal'");
    assert_eq!(v["height"], 77);
    assert_eq!(v["cid"], "cidZ");
    assert_eq!(v["digest"], board.digest());
    assert_eq!(v["beacon_hash"], "ab".repeat(32));
}

#[test]
fn a_board_encodes_names_that_need_escapes() {
    let board = Leaderboard::from_scores("g\"1", 3, vec![("id".into(), "tab\there \\ \u{1}".into(), 2)]);
    let bytes = board.encode().unwrap();
    let v: serde_json::Value = serde_json::from_slice(&bytes).unwrap();
    assert_eq!(v["galaxy"], "g\"1");
    assert_eq!(v["tick"], 3);
    assert_eq!(v["standings"][0]["name"], "tab\there \\ \u{1}");
    assert_eq!(v["standings"][0]["kills"], 2);
}

#[test]
fn empty_board_seals_and_has_no_champion() {
    let board = Leaderboard::from_scores("g1", 0, Vec::new());
    assert!(board.champion().is_none());
    let c = Commitment::seal(&board, "cid0", 1, &"00".repeat(32), "h");
    assert!(c.verifies(&board));
}

#[test]
fn replica_topic_is_stable() {
    assert_eq!(replica_topic("3_4"), "ce-game/spacegame/3_4/replica");
    assert_eq!(proof_topic("3_4"), "ce-game/spacegame/3_4/proof");
}

#[test]
fn transit_and_ruleset_topics_are_stable() {
    assert_eq!(transit_topic("1_0"), "ce-game/spacegame/1_0/transit");
    assert_eq!(ruleset_topic(), "ce-game/spacegame/main/ruleset");
}

#[test]
fn seal_topic_is_galaxy_scoped() {
    assert_eq!(seal_topic(), "ce-game/spacegame/main/seal");
}

#[test]
fn snapshot_service_is_distinct_from_host_service() {
    assert_eq!(snapshot_service("0_0"), "ce-game/spacegame/0_0/snap");
    assert_ne!(snapshot_service("0_0"), topics::service("0_0"));
    assert_ne!(snapshot_topic("0_0"), topics::state("0_0"));
    assert_ne!(ruleset_service(), topics::service("0_0"));
}

#[test]
fn board_for_sector_reduces_kills() {
    let mut sim = Sim::new();
    sim.join("nodeA", "Ace", 1);
    sim.join("nodeB", "Bee", 2);
    sim.ships.get_mut(&"nodeA".to_string()).unwrap().body.kills = 5;
    sim.ships.get_mut(&"nodeB".to_string()).unwrap().body.kills = 2;
    let board = board_for_sector(&sim);
    assert_eq!(board.galaxy, GALAXY);
    assert_eq!(board.champion().unwrap().id, "nodeA");
    assert_eq!(board.champion().unwrap().kills, 5);
}

#[test]
fn the_freshest_snapshot_and_the_highest_ruleset_win() {
    let s = |cid: &str, tick| SnapshotAnnounce { cid: cid.into(), tick };
    let best = prefer_snapshot(prefer_snapshot(None, s("a", 5)), s("b", 9));
    let best = prefer_snapshot(best, s("c", 7)).unwrap();
    assert_eq!((best.cid.as_str(), best.tick), ("b", 9));
    let r = |cid: &str, version| RulesetAnnounce { cid: cid.into(), version };
    let top = prefer_ruleset(prefer_ruleset(None, r("x", 2)), r("y", 1)).unwrap();
    assert_eq!(top.version, 2);
}

#[test]
fn a_watched_ruleset_is_published_once_per_change() {
    let mut w = RulesetWatch::new(Some(4));
    let first = w.on_read(111, 1);
    assert!(first.is_some_and(|v| v > 4), "a version above the live one");
    assert_eq!(w.on_read(111, 1), None, "no change, nothing to publish");
    assert!(w.on_read(222, 1) > first);
}

#[test]
fn hosts_are_gathered_from_the_atlas() {
    let atlas = vec![
        AtlasEntry {
            node_id: "n1".into(),
            cpu_cores: 8,
            mem_mb: 4096,
            running_jobs: 2,
            last_seen_secs: 1,
            tags: vec![],
        },
        AtlasEntry {
            node_id: "n2".into(),
            cpu_cores: 4,
            mem_mb: 64,
            running_jobs: 0,
            last_seen_secs: 1,
            tags: vec![],
        },
    ];
    let edges = vec![Edge { peer: "n1".into(), rtt_ms: 30 }];
    let c = candidates(&atlas, &edges);
    assert_eq!(c.len(), 2);
    assert_eq!((c[0].node_id.as_str(), c[0].rtt_ms), ("n1", Some(30)));
    assert_eq!(c[1].rtt_ms, None);
    let r = replica_candidates(&c);
    assert_eq!(r.len(), 2);
    assert_eq!(r[0].free_cores, 8);
    assert_eq!((r[0].in_game_dist, r[1].in_game_dist), (30, 150));
    assert_eq!(r[1].rtt_ms, None);
}

#[test]
fn a_sector_cell_runs_its_sector() {
    let s = sector_cell_spec("2_3", "img", 60);
    assert_eq!(s.image, "img");
    assert!(s.cmd.iter().any(|a| a == "2_3"));
    assert_eq!(s.duration_secs, 60);
    assert!(s.cpu_cores >= 1 && s.mem_mb >= 128);
}

#[test]
fn cold_neighbours_are_warmed_before_a_crossing() {
    let around = vec![(SectorId::new(1, 0), true), (SectorId::new(0, 1), false)];
    let warm = to_prewarm("0_0", &around);
    assert!(!warm.is_empty());
    assert!(to_prewarm("not a sector", &around).len() <= 2);
}

#[test]
fn topic_names_are_sector_keyed() {
    assert_eq!(topics::input("0_0"), "ce-game/spacegame/0_0/in");
    assert_eq!(topics::state("1_2"), "ce-game/spacegame/1_2/state");
    assert_eq!(topics::service("1_2"), "ce-game/spacegame/1_2");
    assert_ne!(topics::input("0_0"), topics::input("0_1"));
}

#[test]
fn default_config_is_sane() {
    let c = SectorConfig::default();
    assert_eq!(c.sector, "0_0");
    assert_eq!(c.hz, 20);
    assert!(c.advertise_every > 0);
}

#[test]
fn a_sector_is_hosted_tick_by_tick() {
    let mut cfg = SectorConfig::default();
    cfg.advertise_every = 3;
    cfg.snapshot_every = 2;
    cfg.seal_every = 4;
    let mut l = SectorLoop::start(cfg, "host".into(), None);
    assert_eq!(l.tick_ms(), 50);
    assert_eq!(l.input_topic(), "ce-game/spacegame/0_0/in");
    assert_eq!(l.service(), "ce-game/spacegame/0_0");
    let topic = l.input_topic();
    l.on_message(&topic, "alice", Some(ClientMsg::Join { name: "Al".into(), cap: None }));
    l.on_message("elsewhere", "bob", Some(ClientMsg::Join { name: "Bo".into(), cap: None }));
    l.on_message(&topic, "carol", None);
    let mut seals = 0;
    let mut advertised = 0;
    let mut copied = 0;
    for t in 0..12u64 {
        let w = l.on_tick(1000 + t);
        assert_eq!(w.state_topic, "ce-game/spacegame/0_0/state");
        assert_eq!(w.snapshot.ships.len(), 1, "only the one who joined here flies");
        assert_eq!(w.snapshot.ts, 1000 + t);
        assert_eq!(w.snapshot.host, "host");
        seals += w.seal.is_some() as u32;
        advertised += w.advertise as u32;
        copied += w.replicate as u32;
    }
    assert_eq!((seals, advertised, copied), (3, 4, 6));
}

#[test]
fn a_node_waits_longer_after_each_failure() {
    let (mut l, effects) = NodeLoop::start("me".into(), NodeOpts::default());
    assert!(effects.is_empty());
    assert_eq!(l.epoch_secs(), 3);
    let waits: Vec<u64> = (0..8).map(|_| l.on_open_failed()).collect();
    assert_eq!(waits, vec![250, 500, 1000, 2000, 4000, 8000, 10_000, 10_000]);
    l.on_opened();
    assert_eq!(l.on_open_failed(), 250);
    let (hasty, _) = NodeLoop::start("me".into(), NodeOpts { epoch_secs: 0, ..NodeOpts::default() });
    assert_eq!(hasty.epoch_secs(), 1);
    assert_eq!(hasty.node.epoch, 0);
}

#[test]
fn a_busy_host_looks_after_its_neighbours() {
    let mut l = SectorLoop::start(SectorConfig::default(), "h".into(), None);
    for i in 0..79 {
        l.sim.join(&format!("p{i}"), "P", 0);
    }
    for _ in 0..4 {
        l.on_tick(0);
    }
    assert!(!l.prewarm_due(4), "79 ships are not many");
    l.sim.join("p79", "P", 0);
    assert!(l.prewarm_due(4));
    assert!(l.prewarm_due(2));
    assert!(!l.prewarm_due(3), "it is not its turn");
    assert!(!l.prewarm_due(0), "never");
}

#[test]
fn a_host_waits_longer_after_each_failure() {
    let mut l = SectorLoop::start(SectorConfig::default(), "h".into(), None);
    let waits: Vec<u64> = (0..8).map(|_| l.on_open_failed()).collect();
    assert_eq!(waits, vec![250, 500, 1000, 2000, 4000, 8000, 10_000, 10_000]);
    l.on_opened();
    assert_eq!(l.on_open_failed(), 250);
}

#[test]
fn the_explorers_board_does_not_depend_on_the_order_of_the_claims() {
    let cell = CellId { depth: 12, x: 100, y: 100 };
    let other = CellId { depth: 12, x: 101, y: 100 };
    let claim = |cell: CellId, by: &str, epoch: u64, ring: u32| Discovery { cell, by: by.into(), epoch, ring };
    let claims = vec![
        claim(cell, "late", 20, 5),
        claim(cell, "early", 10, 5),
        claim(other, "late", 30, 3),
        claim(cell, "early", 10, 5),
    ];
    let mut carto = Cartography::default();
    let mut back = Cartography::default();
    let wins: Vec<bool> = claims.iter().map(|d| carto.claim_discovery(d.clone())).collect();
    assert_eq!(wins, vec![true, true, true, false]);
    for d in claims.iter().rev() {
        back.claim_discovery(d.clone());
    }
    let record = |discoveries: u32, deepest_ring: u32| ExplorerRecord { discoveries, landmarks_named: 0, deepest_ring };
    let board = carto.leaderboard();
    assert_eq!(board, vec![("early".to_string(), record(1, 5)), ("late".to_string(), record(1, 3))]);
    assert_eq!(board, back.leaderboard());
}

#[test]
fn a_displaced_claim_earns_nothing() {
    let cell = CellId { depth: 12, x: 100, y: 100 };
    let mut carto = Cartography::default();
    carto.claim_discovery(Discovery { cell, by: "late".into(), epoch: 20, ring: 5 });
    carto.claim_discovery(Discovery { cell, by: "early".into(), epoch: 10, ring: 5 });
    let one = ExplorerRecord { discoveries: 1, landmarks_named: 0, deepest_ring: 5 };
    assert_eq!(carto.leaderboard(), vec![("early".to_string(), one)]);
    carto.name_landmark(Landmark {
        cell,
        kind: LandmarkKind::Ruin,
        name: "Gate".into(),
        named_by: "namer".into(),
        epoch: 30,
    });
    let namer = ExplorerRecord { discoveries: 0, landmarks_named: 1, deepest_ring: 0 };
    assert_eq!(carto.leaderboard(), vec![("early".to_string(), one), ("namer".to_string(), namer)]);
}

#[test]
fn merging_boards_in_any_order_gives_one_board() {
    let board = |tick: u64, rows: &[(&str, &str, u32)]| {
        let rows = rows.iter().map(|r| (r.0.to_string(), r.1.to_string(), r.2)).collect();
        Leaderboard::from_scores("g", tick, rows)
    };
    let first = || board(5, &[("a", "Old", 3), ("b", "", 1)]);
    let second = || board(9, &[("a", "New", 4), ("b", "Bee", 1)]);
    let third = || board(9, &[("a", "", u32::MAX), ("b", "Ant", 1)]);
    let ahead = Leaderboard::merge("g", vec![first(), second(), third()]);
    let back = Leaderboard::merge("g", vec![third(), second(), first()]);
    assert_eq!(ahead, back);
    assert_eq!(ahead.tick, 9);
    let rows: Vec<(&str, &str, u32)> =
        ahead.standings.iter().map(|s| (s.id.as_str(), s.name.as_str(), s.kills)).collect();
    assert_eq!(rows, vec![("a", "New", u32::MAX), ("b", "Bee", 3)]);
}

#[test]
fn rows_give_one_board_in_any_order() {
    let rows = vec![("a", "Y", 2), ("a", "X", 2), ("b", "B", 7)];
    let owned = |r: &[(&str, &str, u32)]| -> Vec<(String, String, u32)> {
        r.iter().map(|r| (r.0.to_string(), r.1.to_string(), r.2)).collect()
    };
    let ahead = Leaderboard::from_scores("g", 1, owned(&rows));
    let turned: Vec<(&str, &str, u32)> = rows.into_iter().rev().collect();
    assert_eq!(ahead, Leaderboard::from_scores("g", 1, owned(&turned)));
    assert_eq!(ahead.champion().map(|s| s.id.as_str()), Some("b"));
}
