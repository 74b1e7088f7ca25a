use spacegame::autoscale::{AutoscalePolicy, Autoscaler, ScaleAction};
use spacegame::blueprint::ObjectCategory;
use spacegame::fleet::{CapacitySource, Fleet, Headroom, HostNode, RegionHint};
use spacegame::galaxy::{CellId, CellLoad, Galaxy, Verdict};
use spacegame::gateway::{Gateway, GatewayDirectory};
use spacegame::order::{SortedMap, SortedSet};
use spacegame::replica::{Replica, SectorHost, TickInput};
use spacegame::room::{faction_views, ship_view};
use spacegame::shard::SectorId;
use spacegame::sim::{Faction, FactionCommand, Ship, Sim};
use spacegame::wire::ClientMsg;

fn node(id: &str, region: &str, cells: u32, cell_budget: u32, load_permille: u32, rented: bool) -> HostNode {
    let source = if rented {
        CapacitySource::CloudBurst {
            provider: "hetzner".to_string(),
            region: region.to_string(),
            instance_id: format!("i-{id}"),
        }
    } else {
        CapacitySource::Donated
    };
    HostNode {
        node_id: id.to_string(),
        source,
        cores: 4,
        mem_mb: 8000,
        region: RegionHint(region.to_string()),
        cells,
        cell_budget,
        load_permille,
        price_per_min: 0,
        last_seen: 0,
    }
}

#[test]
fn headroom_counts_slots_and_nodes() {
    let fleet = Fleet {
        hosts: vec![
            node("a", "eu", 3, 4, 100, false),
            node("b", "eu", 5, 4, 100, false),
            node("c", "us", 0, 8, 100, true),
        ],
        cell_boot: String::new(),
    };
    let h = fleet.headroom();
    assert_eq!(h, Headroom { free_slots: 9, total_slots: 16, burst_nodes: 1, donor_nodes: 2 });
    assert_eq!(h.slack(), 562);
    assert!(h.slack_below(563));
    assert!(!h.slack_below(500));
    assert!(h.slack_above(500));
    assert!(!h.slack_above(600));
    assert_eq!(fleet.hosts[1].headroom(), 0, "an overfull node has no room");
    assert!(fleet.hosts[2].is_burst());
    assert!(!fleet.hosts[1].can_take_cell());
    assert!(fleet.hosts[0].can_take_cell());
}

#[test]
fn a_fleet_without_slots_has_no_slack() {
    let h = Fleet { hosts: Vec::new(), cell_boot: String::new() }.headroom();
    assert_eq!(h.slack(), 0);
}

#[test]
fn gateways_of_a_region_share_their_slack() {
    let gateway = |id: &str, region: &str, sessions: u32, session_budget: u32| Gateway {
        node_id: id.to_string(),
        region: RegionHint(region.to_string()),
        endpoints: Vec::new(),
        sessions,
        session_budget,
        load_permille: 0,
        last_seen: 0,
    };
    let dir = GatewayDirectory {
        gateways: vec![gateway("a", "eu", 90, 100), gateway("b", "eu", 10, 100), gateway("c", "us", 0, 100)],
    };
    assert_eq!(dir.slack(&RegionHint("eu".to_string())), 500);
    assert_eq!(dir.slack(&RegionHint("us".to_string())), 1000);
    assert_eq!(dir.slack(&RegionHint("ap".to_string())), 0);
    assert_eq!(dir.gateways[0].headroom(), 10);
}

#[test]
fn siblings_are_the_other_children() {
    let c = CellId { depth: 2, x: 1, y: 2 };
    let s = c.siblings();
    assert_eq!(
        s,
        vec![
            CellId { depth: 2, x: 0, y: 2 },
            CellId { depth: 2, x: 0, y: 3 },
            CellId { depth: 2, x: 1, y: 3 },
        ]
    );
    assert!(CellId::root().siblings().is_empty());
}

fn load(players: u32) -> CellLoad {
    CellLoad { players, entities: 0, tick_p99_us: 0, bandwidth_bps: 0, epoch: 1 }
}

#[test]
fn a_verdict_must_hold_for_the_dwell() {
    let mut a = Autoscaler::new(AutoscalePolicy::default());
    let c = CellId::root();
    assert!(!a.debounce(c, Verdict::Split));
    assert!(!a.debounce(c, Verdict::Split));
    assert!(a.debounce(c, Verdict::Split), "the third agreeing epoch acts");
    assert!(!a.debounce(c, Verdict::Split), "and the count starts over");
    assert!(!a.debounce(c, Verdict::Merge));
    assert!(!a.debounce(c, Verdict::Split), "a change of mind starts over too");
}

#[test]
fn all_four_children_must_be_cold() {
    let a = Autoscaler::new(AutoscalePolicy::default());
    let parent = CellId { depth: 1, x: 0, y: 0 };
    let mut loads: SortedMap<CellId, CellLoad> = SortedMap::new();
    for c in parent.children().into_iter().take(3) {
        loads.insert(c, load(1));
    }
    assert!(!a.all_siblings_cold(parent, &loads), "one child has not reported");
    loads.insert(parent.children()[3], load(120));
    assert!(!a.all_siblings_cold(parent, &loads), "one child is warm");
    loads.insert(parent.children()[3], load(2));
    assert!(a.all_siblings_cold(parent, &loads));
}

#[test]
fn idle_rented_nodes_are_found() {
    let a = Autoscaler::new(AutoscalePolicy::default());
    let fleet = Fleet {
        hosts: vec![
            node("donor", "eu", 0, 4, 0, false),
            node("busy", "eu", 2, 4, 0, true),
            node("idle", "eu", 0, 4, 0, true),
        ],
        cell_boot: String::new(),
    };
    assert_eq!(a.idle_burst_nodes(&fleet), vec!["idle".to_string()]);
}

#[test]
fn an_input_for_home_is_scheduled_there() {
    let mut sim = Sim::new();
    sim.join("me", "Me", 0);
    let mut host = SectorHost::from_home(sim);
    host.ensure(SectorId::new(1, 0));
    let at = host.home_tick() + 1;
    let msg = ClientMsg::Join { name: "Ally".to_string(), cap: None };
    assert!(host.schedule_home(TickInput { tick: at, player: "ally".to_string(), seq: 1, msg }));
    host.advance_all(at + 1);
    assert!(host.home_sim().ships.contains_key(&"ally".to_string()));
    assert!(!host.sim(SectorId::new(1, 0)).unwrap().ships.contains_key(&"ally".to_string()));
    let late = ClientMsg::Join { name: "Late".to_string(), cap: None };
    assert!(!host.schedule_home(TickInput { tick: at, player: "late".to_string(), seq: 1, msg: late }));
}

#[test]
fn a_local_action_can_be_applied_at_once() {
    let mut r = Replica::new(Sim::new());
    r.apply_local_now("me", ClientMsg::Join { name: "Me".to_string(), cap: None });
    assert_eq!(r.sim().player_count(), 1);
    assert_eq!(r.tick(), 0);
    r.accept_transit("guest".to_string(), Ship::launch("Guest".to_string(), 7));
    assert_eq!(r.sim().ship_count(), 2);
    assert!(r.drain_transits().is_empty());
}

#[test]
fn factions_are_shown_in_the_order_of_their_owners() {
    let mut sim = Sim::new();
    for owner in ["zed", "amy"] {
        sim.scene.factions.push(Faction {
            owner: owner.to_string(),
            minerals: 1,
            energy: 2,
            alloys: 3,
            buildings: 0,
            drones: 1,
            fighters: 0,
            haulers: 0,
            power: -4,
            command: FactionCommand::AttackMove { x: 1, y: 2 },
        });
    }
    let mut drone = Ship::launch("drone".to_string(), 3);
    drone.owner = Some("zed".to_string());
    sim.accept_transit("d1".to_string(), drone);
    let mut wreck = Ship::launch("wreck".to_string(), 3);
    wreck.owner = Some("zed".to_string());
    wreck.body.alive = false;
    sim.accept_transit("d2".to_string(), wreck);
    let v = faction_views(&sim);
    assert_eq!(v.iter().map(|f| f.owner.as_str()).collect::<Vec<_>>(), ["amy", "zed"]);
    assert_eq!(v[0].fleet_alive, 0);
    assert_eq!(v[1].fleet_alive, 1, "a wreck does not count");
    assert_eq!(v[1].command, "attack_move");
}

#[test]
fn a_ship_is_shown_inside_its_sector() {
    let mut s = Ship::launch("Edge".to_string(), 9);
    s.body.x = -30;
    s.body.y = 1_000_000;
    s.effects = vec![0, 5, 0, 1];
    let v = ship_view("id", &s);
    assert_eq!((v.x, v.y), (0, spacegame::sim::SECTOR_SIZE));
    assert_eq!(v.effects, vec![1, 3]);
    assert_eq!(v.role, "player");
}

#[test]
fn structures_hold_and_interiors_are_held() {
    assert!(ObjectCategory::Structure.holds_children());
    assert!(ObjectCategory::Container.holds_children());
    assert!(!ObjectCategory::Thruster.holds_children());
    assert!(ObjectCategory::CommandCenter.must_be_interior());
    assert!(!ObjectCategory::Armor.must_be_interior());
}

#[test]
fn a_browser_stays_in_its_region() {
    let gateway = |id: &str, region: &str, load_permille: u32| Gateway {
        node_id: id.to_string(),
        region: RegionHint(region.to_string()),
        endpoints: Vec::new(),
        sessions: 0,
        session_budget: 10,
        load_permille,
        last_seen: 0,
    };
    let mut dir = GatewayDirectory {
        gateways: vec![gateway("us", "us", 1), gateway("eu-a", "eu", 300), gateway("eu-b", "eu", 200)],
    };
    let eu = RegionHint("eu".to_string());
    for seed in 0..8 {
        let expected = if seed % 2 == 0 { "eu-b" } else { "eu-a" };
        assert_eq!(dir.pick(&eu, seed).unwrap().node_id, expected);
    }
    dir.gateways[1].sessions = 10;
    dir.gateways[2].load_permille = 900;
    assert_eq!(dir.pick(&eu, 5).unwrap().node_id, "us", "elsewhere where none accepts");
}

#[test]
fn a_cell_that_sends_much_does_not_merge() {
    let policy = AutoscalePolicy::default().scale;
    let mut l = load(1);
    l.bandwidth_bps = 3_599_999;
    assert_eq!(l.verdict(4, &policy), Verdict::Merge);
    l.bandwidth_bps = 3_600_000;
    assert_eq!(l.verdict(4, &policy), Verdict::Hold);
    l.bandwidth_bps = 12_000_000;
    assert_eq!(l.verdict(4, &policy), Verdict::Split);
    assert_eq!(l.verdict(30, &policy), Verdict::Hold, "the deepest cells split no further");
}

#[test]
fn a_redlining_host_sheds_the_cell_that_was_picked() {
    let scaler = Autoscaler::new(AutoscalePolicy::default());
    let fleet = Fleet {
        hosts: vec![
            node("hot", "eu", 3, 4, 950, false),
            node("far", "us", 0, 8, 100, false),
            node("near", "eu", 2, 4, 100, false),
            node("at-the-limit", "eu", 3, 4, 900, false),
            node("idle-pick", "us", 4, 4, 990, false),
        ],
        cell_boot: String::new(),
    };
    let cell = CellId::root().children()[1];
    let mut actions = vec![ScaleAction::Retire { node: "old".to_string() }];
    scaler.rebalance(&mut actions, &fleet, &vec![Some(cell), Some(cell), None, Some(cell), None]);
    assert_eq!(
        actions,
        vec![
            ScaleAction::Retire { node: "old".to_string() },
            ScaleAction::Migrate { cell, from: "hot".to_string(), to: "near".to_string() },
        ]
    );

    let full = Fleet { hosts: vec![node("hot", "eu", 4, 4, 950, false)], cell_boot: String::new() };
    scaler.rebalance(&mut actions, &full, &vec![Some(cell)]);
    assert_eq!(actions.len(), 2, "no host can take the cell");
}

#[test]
fn a_pass_asks_for_no_more_than_it_may() {
    let regions = ["a", "b", "c", "d", "e", "f"];
    let hosts: Vec<HostNode> = regions.iter().map(|r| node(r, r, 4, 4, 100, false)).collect();
    let fleet = Fleet { hosts, cell_boot: String::new() };
    let mut scaler = Autoscaler::new(AutoscalePolicy { max_burst_per_pass: 20, ..AutoscalePolicy::default() });
    let asked = |acts: &[ScaleAction]| -> Vec<(usize, String)> {
        acts.iter()
            .filter_map(|a| match a {
                ScaleAction::Burst { count, region } => Some((*count, region.0.clone())),
                _ => None,
            })
            .collect()
    };
    let galaxy = Galaxy::genesis();
    let nobody: SortedSet<CellId> = SortedSet::new();
    let first = scaler.decide(1, &galaxy, &SortedMap::new(), &fleet, &nobody);
    assert_eq!(asked(&first), vec![(8, "a".to_string()), (8, "b".to_string()), (4, "c".to_string())]);
    let second = scaler.decide(2, &galaxy, &SortedMap::new(), &fleet, &nobody);
    assert_eq!(
        asked(&second),
        vec![(8, "d".to_string()), (8, "e".to_string()), (4, "f".to_string())],
        "those who have asked cool down, and the others come next"
    );

    let full = Fleet { hosts: vec![node("x", "a", 4, 4, 100, false)], cell_boot: String::new() };
    let mut few = Autoscaler::new(AutoscalePolicy { max_burst_per_pass: 6, ..AutoscalePolicy::default() });
    few.policy.scale.dwell_epochs = 1;
    let mut split = Galaxy::genesis();
    split.split(CellId::root());
    let mut loads: SortedMap<CellId, CellLoad> = SortedMap::new();
    let mut mine: SortedSet<CellId> = SortedSet::new();
    for c in CellId::root().children() {
        loads.insert(c, CellLoad { players: 9999, entities: 0, tick_p99_us: 0, bandwidth_bps: 0, epoch: 1 });
        mine.insert(c);
    }
    let third = few.decide(1, &split, &loads, &full, &mine);
    assert_eq!(asked(&third).iter().map(|a| a.0).collect::<Vec<_>>(), vec![4, 2]);
}
