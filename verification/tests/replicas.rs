use spacegame::aabb::Aabb;
use spacegame::commit::{commit_id, spell_op};
use spacegame::director::AtlasEntry;
use spacegame::galaxy::{CellId, CellLoad};
use spacegame::galaxywire::{LoadFrame, ShapeCommit, ShapeOp};
use spacegame::hash::{fnv1a, fnv64};
use spacegame::node::{gateway_directory, route, Effect, GalaxyWatch, Node, NodeOpts, Route};
use spacegame::order::SortedSet;
use spacegame::replica::{tick_at, Replica, SectorHost, TickInput, INPUT_DELAY, MAX_CATCHUP, TICK_EPOCH_MS};
use spacegame::replication::{
    agree, ReplicaCandidate, ReplicaRole, ReplicaSet, ReplicationConstraint, StateProof, Verdict,
};
use spacegame::room::{
    apply_client_msg, apply_client_packet, build_snapshot, build_snapshot_view, command_for, command_str, hue_for,
    pickup_hue, role_str, tech_node_for,
};
use spacegame::shard::SectorId;
use spacegame::sim::{FactionCommand, Pickup, ShipRole, Sim, SECTOR_SIZE, SHIP_R};
use spacegame::wire::{ClientMsg, ClientPacket, SeqMsg};

fn input(tick: u64, player: &str, seq: u64, msg: ClientMsg) -> TickInput {
    TickInput { tick, player: player.into(), seq, msg }
}

fn thrust(tick: u64, player: &str, seq: u64) -> TickInput {
    TickInput {
        tick,
        player: player.into(),
        seq,
        msg: ClientMsg::Input { thrust: true, turn: 1, fire: true, aim: Some(700), name: None },
    }
}

fn join(name: &str) -> ClientMsg {
    ClientMsg::Join { name: name.into(), cap: None }
}

#[test]
fn two_replicas_from_the_same_inputs_reach_identical_state() {
    let mut a = Replica::new(Sim::new());
    let mut b = Replica::new(Sim::new());
    assert_eq!(a.state_hash(), b.state_hash(), "identical fresh worlds start equal");

    let inputs = || {
        vec![
            thrust(3, "p1", 1),
            thrust(3, "p2", 1),
            thrust(5, "p1", 2),
            input(4, "p2", 2, ClientMsg::Build { kind: "gun".into() }),
            input(6, "p1", 3, ClientMsg::Weapon { id: "blaster".into() }),
        ]
    };
    for ti in inputs() {
        a.schedule(ti);
    }
    for ti in inputs().into_iter().rev() {
        b.schedule(ti);
    }
    a.advance_to(11);
    b.advance_to(11);
    assert_eq!(a.tick(), 11);
    assert_eq!(a.state_hash(), b.state_hash(), "same inputs => same state, independent of arrival order");
}

#[test]
fn a_rogue_input_diverges_the_hash_so_the_merge_can_catch_it() {
    let mut honest = Replica::new(Sim::new());
    let mut cheat = Replica::new(Sim::new());
    honest.schedule(thrust(2, "p1", 1));
    cheat.schedule(thrust(2, "p1", 1));
    cheat.schedule(thrust(3, "ghost", 1));
    honest.advance_to(10);
    cheat.advance_to(10);
    assert_ne!(honest.state_hash(), cheat.state_hash(), "a forged input shows up as a divergent hash");
}

#[test]
fn an_input_for_an_already_simulated_tick_is_rejected() {
    let mut r = Replica::new(Sim::new());
    r.advance_to(10);
    assert!(!r.schedule(thrust(4, "p1", 1)), "a tick already simulated can't accept a late input");
    assert!(r.schedule(thrust(12, "p1", 1)), "a future tick still accepts inputs");
}

#[test]
fn schedule_local_targets_the_input_delay_tick() {
    let mut r = Replica::new(Sim::new());
    r.advance_to(100);
    let at = r.schedule_local("me", 1, ClientMsg::Respawn);
    assert_eq!(at, 100 + INPUT_DELAY, "local input is scheduled INPUT_DELAY ticks ahead for propagation");
}

#[test]
fn a_replica_far_behind_jumps() {
    let mut r = Replica::new(Sim::new());
    r.advance_to(MAX_CATCHUP);
    assert_eq!(r.tick(), MAX_CATCHUP);
    r.advance_to(10_000);
    assert_eq!(r.tick(), 10_000);
    r.advance_to(5);
    assert_eq!(r.tick(), 10_000, "time does not run back");
    r.set_tick(7);
    assert_eq!(r.tick(), 7);
    assert_eq!(tick_at(TICK_EPOCH_MS), 0);
    assert!(tick_at(TICK_EPOCH_MS + 1000) > tick_at(TICK_EPOCH_MS + 500));
    assert_eq!(tick_at(0), 0);
}

// A sim whose one ship is about to leave through the east edge.
fn about_to_cross() -> Sim {
    let mut sim = Sim::new();
    sim.join("me", "Me", 0);
    let ship = sim.ships.get_mut(&"me".to_string()).unwrap();
    ship.body.x = 4;
    ship.body.y = 1500;
    ship.body.minerals = 7;
    assert!(sim.send_out("me", SectorId::new(1, 0)));
    sim
}

#[test]
fn local_player_rehomes_across_a_sector_edge_instead_of_teleporting_to_centre() {
    let mut r = Replica::new(about_to_cross());
    let start = r.tick();
    r.advance_to(start + 3);
    assert!(!r.sim().ships.contains_key(&"me".to_string()), "the ship transited out of (0,0)");
    let moved = r.rehome_local_player("me");
    assert_eq!(moved, Some(SectorId::new(1, 0)), "re-homed east into (1,0)");
    assert_eq!(r.sector(), SectorId::new(1, 0), "the replica now hosts the neighbour sector");
    let s = r.sim().ships.get(&"me".to_string()).expect("the ship was carried into the new sector, not lost");
    assert_eq!(s.body.minerals, 7, "its full state crossed the boundary");
    assert!(s.body.x < SHIP_R + 50, "entered at the west edge of the new sector, not mid-sector");
    assert!((s.body.x - SECTOR_SIZE / 2).abs() > 100, "NOT at the sector centre (the teleport bug)");
    assert_eq!(r.rehome_local_player("me"), None);
}

fn at_place(x: i32, y: i32) -> Replica {
    let mut sim = Sim::new();
    sim.join("me", "Me", 0);
    let ship = sim.ships.get_mut(&"me".to_string()).unwrap();
    ship.body.x = x;
    ship.body.y = y;
    Replica::new(sim)
}

#[test]
fn interest_grows_to_the_neighbour_as_the_bubble_nears_a_seam() {
    let view = 1500;
    let mid = at_place(SECTOR_SIZE / 2, SECTOR_SIZE / 2).interest_sectors("me", view);
    assert_eq!(mid.len(), 1, "mid-sector: interest is exactly the home sector");
    assert!(mid.contains(&SectorId::new(0, 0)));
    let edge = at_place(SECTOR_SIZE - 100, SECTOR_SIZE / 2).interest_sectors("me", view);
    assert!(edge.contains(&SectorId::new(0, 0)) && edge.contains(&SectorId::new(1, 0)));
    assert_eq!(edge.len(), 2, "near the east edge: home + the eastern neighbour, nothing else");
}

#[test]
fn crossing_between_warm_sectors_slides_the_ship_without_a_rebuild() {
    let mut host = SectorHost::from_home(about_to_cross());
    host.ensure(SectorId::new(1, 0));
    let start = host.home_tick();
    host.advance_all(start + 3);
    let moved = host.step_transits("me");
    assert_eq!(moved, Some(SectorId::new(1, 0)), "home follows the player east");
    assert_eq!(host.home(), SectorId::new(1, 0), "the node now hosts the neighbour as home");
    let s = host.home_sim().ships.get(&"me".to_string()).expect("ship carried into the neighbour, not lost");
    assert_eq!(s.body.minerals, 7, "full state crossed the boundary");
    assert!(s.body.x < SHIP_R + 50, "entered at the west edge, not mid-sector");
    assert!((s.body.x - SECTOR_SIZE / 2).abs() > 100, "NOT teleported to the sector centre");
    assert!(host.sim(SectorId::new(0, 0)).is_some(), "the sector we left stays warm — no pop behind us");
    let shots = host.snapshots("me", 5);
    assert_eq!(shots.len(), 2);
}

#[test]
fn retain_drops_far_sectors_but_never_home() {
    let mut sim = Sim::new();
    sim.join("me", "Me", 0);
    let mut host = SectorHost::from_home(sim);
    host.ensure(SectorId::new(1, 0));
    host.ensure(SectorId::new(5, 5));
    let mut interest: SortedSet<SectorId> = SortedSet::new();
    interest.insert(SectorId::new(0, 0));
    interest.insert(SectorId::new(1, 0));
    let dropped = host.retain(&interest);
    assert_eq!(dropped, vec![SectorId::new(5, 5)], "the far sector is released");
    let warm = host.warm_sectors();
    assert!(warm.contains(&SectorId::new(0, 0)) && warm.contains(&SectorId::new(1, 0)));
    assert!(!warm.contains(&SectorId::new(5, 5)));
    host.retain(&SortedSet::new());
    assert!(host.warm_sectors().contains(&SectorId::new(0, 0)), "home is never dropped");
}

#[test]
fn an_input_routes_to_its_own_sector_not_home() {
    let mut sim = Sim::new();
    sim.join("me", "Me", 0);
    let mut host = SectorHost::from_home(sim);
    host.ensure(SectorId::new(1, 0));
    let t = host.home_tick();
    host.schedule(SectorId::new(1, 0), input(t, "neighbour", 1, join("N")));
    assert!(!host.schedule(SectorId::new(8, 8), input(t, "far", 1, join("F"))), "nobody runs that sector");
    host.advance_all(t + 2);
    assert!(
        host.sim(SectorId::new(1, 0)).unwrap().ships.contains_key(&"neighbour".to_string()),
        "the neighbour spawned in its own sector"
    );
    assert!(!host.home_sim().ships.contains_key(&"neighbour".to_string()), "and did NOT ghost-join home");
}

fn cand(id: &str, dist: u32, rtt: u32, alive: bool) -> ReplicaCandidate {
    ReplicaCandidate { node_id: id.into(), rtt_ms: Some(rtt), in_game_dist: dist, free_cores: 4, alive }
}

#[test]
fn closer_player_node_scores_higher() {
    let near = cand("near", 100, 30, true);
    let far = cand("far", 5000, 10, true);
    assert!(near.score() > far.score(), "in-game proximity beats raw latency for replica placement");
    let dead = cand("dead", 1, 1, false);
    assert!(dead.score() < 0 && far.score() >= 0, "a dead node is below every live one");
}

#[test]
fn the_score_is_shown_in_millionths() {
    assert_eq!(cand("a", 3, 30, true).score(), 1_000_000_000 + 4_000_000 + 1_250_000);
    assert_eq!(cand("b", 6, 10, true).score(), 579_345_238, "571.428571.. and 6.666666.. and 1.25");
    let unmeasured = ReplicaCandidate { rtt_ms: None, ..cand("c", 0, 0, true) };
    assert_eq!(unmeasured.score(), cand("d", 0, 120, true).score());
    assert_eq!(cand("e", 0, 0, false).score(), -1);
}

#[test]
fn candidates_are_ranked_by_their_exact_scores() {
    let plan_of = |cands: Vec<ReplicaCandidate>| {
        let set = ReplicaSet::new("0_0", "p", ReplicationConstraint { k: 2 }, 0);
        set.plan(&cands).copy_to
    };
    let (near, far) = (cand("z", 100_000, 30, true), cand("a", 100_001, 30, true));
    assert_eq!(near.score(), far.score(), "the two do not differ by a millionth");
    assert!(near.suitability().beats(&far.suitability()));
    assert!(!far.suitability().beats(&near.suitability()));
    assert_eq!(plan_of(vec![far, near]), vec!["z".to_string()], "the nearer one all the same");
    let quicker = vec![cand("a", u32::MAX, u32::MAX, true), cand("z", u32::MAX, u32::MAX - 1, true)];
    assert_eq!(plan_of(quicker), vec!["z".to_string()]);
    let even = vec![cand("z", 7, 30, true), cand("a", 7, 30, true)];
    assert_eq!(plan_of(even), vec!["a".to_string()], "the same score goes by the id");
    let more = |id: &str, free_cores: u32| ReplicaCandidate { free_cores, ..cand(id, 7, 30, true) };
    assert_eq!(plan_of(vec![more("a", 16), more("0", 15)]), vec!["a".to_string()]);
    assert_eq!(plan_of(vec![more("b", 99), more("a", 16)]), vec!["a".to_string()], "sixteen cores are enough");
}

#[test]
fn the_nearest_backup_takes_over_by_its_exact_score() {
    let mut set = ReplicaSet::new("0_0", "p", ReplicationConstraint { k: 3 }, 0);
    set.admit_node("a", 50);
    set.admit_node("z", 50);
    set.expire(60, 20);
    let plan = set.plan(&vec![cand("a", 100_001, 30, true), cand("z", 100_000, 30, true)]);
    assert_eq!(plan.promote, Some("z".to_string()));
    let plan = set.plan(&vec![cand("a", 100_001, 30, true), cand("z", 1, 30, false)]);
    assert_eq!(plan.promote, Some("a".to_string()));
    let plan = set.plan(&vec![cand("a", 1, 30, false)]);
    assert_eq!(plan.promote, Some("z".to_string()), "one that is not listed is above one that cannot be reached");
}

#[test]
fn plan_copies_to_restore_k_replicas() {
    let now = 100;
    let mut set = ReplicaSet::new("3_4", "host", ReplicationConstraint { k: 3 }, now);
    let candidates = vec![
        cand("playerA", 200, 25, true),
        cand("playerB", 400, 40, true),
        cand("playerC", 9000, 15, true),
    ];
    let plan = set.plan(&candidates);
    assert!(plan.promote.is_none(), "primary healthy, no promotion");
    assert_eq!(plan.copy_to.len(), 2, "copy the map to two nearby nodes to reach k=3");
    assert_eq!(plan.copy_to[0], "playerA", "nearest player's node first");
    set.apply(&plan, now);
    assert_eq!(set.members.len(), 3);
    assert!(set.contains("playerB") && !set.contains("playerC"));
}

#[test]
fn primary_loss_promotes_a_backup_deterministically() {
    let mut set = ReplicaSet::new("0_0", "host", ReplicationConstraint { k: 3 }, 0);
    set.admit_node("backupA", 0);
    set.admit_node("backupB", 0);
    set.observe("backupA", 18);
    set.observe("backupB", 18);
    set.expire(20, 5);
    let candidates = vec![cand("backupA", 150, 30, true), cand("backupB", 800, 10, true)];
    let plan = set.plan(&candidates);
    assert_eq!(plan.promote.as_deref(), Some("backupA"), "the best healthy backup takes over");
    assert!(plan.drop.contains(&"host".to_string()), "the dead primary is retired");
    let plan2 = set.plan(&candidates);
    assert_eq!(plan, plan2);
    set.apply(&plan, 20);
    assert_eq!(set.primary().unwrap().node_id, "backupA");
}

#[test]
fn re_replicates_to_next_best_after_a_drop() {
    let mut set = ReplicaSet::new("1_1", "host", ReplicationConstraint { k: 3 }, 0);
    set.admit_node("a", 0);
    set.admit_node("b", 0);
    set.observe("host", 30);
    set.observe("b", 30);
    set.expire(40, 5);
    // The two that were heard of at 30 are silent for ten ticks by now, so hear them again.
    set.observe("host", 40);
    set.observe("b", 40);
    set.expire(40, 5);
    let candidates = vec![cand("host", 50, 5, true), cand("b", 300, 20, true), cand("c", 500, 25, true)];
    let plan = set.plan(&candidates);
    assert!(plan.drop.contains(&"a".to_string()), "the dropped replica is retired");
    assert_eq!(plan.copy_to, vec!["c".to_string()], "the high-precision map is copied to the next best node");
}

#[test]
fn healthy_set_needs_no_action() {
    let mut set = ReplicaSet::new("2_2", "host", ReplicationConstraint { k: 2 }, 0);
    set.admit_node("a", 0);
    set.observe("host", 100);
    set.observe("a", 100);
    set.expire(101, 50);
    let plan = set.plan(&vec![cand("host", 10, 5, true), cand("a", 20, 6, true)]);
    assert!(plan.promote.is_none() && plan.copy_to.is_empty() && plan.drop.is_empty());
    assert_eq!(set.healthy_count(), 2);
}

fn state_proof(node: &str, hash: u64) -> StateProof {
    StateProof { region: "0_0".into(), node: node.into(), tick: 42, hash }
}

#[test]
fn honest_majority_outvotes_a_cheater() {
    let a = agree(&vec![state_proof("a", 7), state_proof("b", 7), state_proof("c", 7), state_proof("cheat", 9)]);
    assert_eq!(a.quorum_hash, Some(7));
    assert!(a.has_quorum);
    assert_eq!(a.agree, vec!["a", "b", "c"]);
    assert_eq!(a.dissent, vec!["cheat"]);
}

#[test]
fn a_one_to_one_split_is_no_quorum_not_a_false_accusation() {
    let a = agree(&vec![state_proof("a", 1), state_proof("b", 2)]);
    assert!(!a.has_quorum, "a 1-1 split has no quorum");
}

#[test]
fn unanimous_agreement_has_no_dissent() {
    let a = agree(&vec![state_proof("a", 5), state_proof("b", 5)]);
    assert!(a.has_quorum);
    assert!(a.dissent.is_empty());
    assert_eq!(a.quorum_hash, Some(5));
}

#[test]
fn verdict_tells_an_outvoted_node_to_merge_to_the_quorum() {
    let a = agree(&vec![state_proof("a", 7), state_proof("b", 7), state_proof("c", 7), state_proof("cheat", 9)]);
    assert_eq!(a.verdict("cheat"), Verdict::ResyncTo(7), "the out-voted node merges to the agreed truth");
    assert_eq!(a.verdict("a"), Verdict::PeersDiverged(vec!["cheat".into()]), "a quorum node flags the suspect");
    let unanimous = agree(&vec![state_proof("a", 5), state_proof("b", 5)]);
    assert_eq!(unanimous.verdict("a"), Verdict::Agreed);
    let split = agree(&vec![state_proof("a", 1), state_proof("b", 2)]);
    assert_eq!(split.verdict("a"), Verdict::Inconclusive);
    assert_eq!(split.verdict("b"), Verdict::Inconclusive);
    assert_eq!(split.quorum_hash, None, "nothing is accepted without a majority");
    let alone = agree(&vec![state_proof("a", 1)]);
    assert_eq!(alone.quorum_hash, Some(1));
    assert_eq!(alone.verdict("a"), Verdict::Inconclusive, "one replica has nobody to agree with");
}

#[test]
fn empty_proofs_is_inconclusive() {
    let a = agree(&vec![]);
    assert!(!a.has_quorum && a.quorum_hash.is_none());
}

#[test]
fn hue_is_stable_and_bounded() {
    let a = hue_for("deadbeef");
    assert_eq!(a, hue_for("deadbeef"));
    assert!(a < 360);
    assert_ne!(hue_for("aaaa"), hue_for("bbbb"));
}

#[test]
fn build_then_select_weapon_via_wire() {
    let mut sim = Sim::new();
    apply_client_msg(&mut sim, "playerA", join("Ace"));
    sim.scene.factions.clear();
    sim.ships.get_mut(&"playerA".to_string()).unwrap().body.minerals = 1000;
    // The older "gun" token stands for the twin-guns node.
    assert!(!apply_client_msg(&mut sim, "playerA", ClientMsg::Build { kind: "gun".into() }));
    assert_eq!(sim.ships.get(&"playerA".to_string()).unwrap().body.guns, 2, "legacy gun token bought twin-guns");
    assert_eq!(sim.ships.get(&"playerA".to_string()).unwrap().hue, hue_for("playerA"));
    // Unlock and select the railgun by the ids of the node and of the weapon.
    apply_client_msg(&mut sim, "playerA", ClientMsg::Build { kind: "tech-railgun".into() });
    apply_client_msg(&mut sim, "playerA", ClientMsg::Weapon { id: "railgun".into() });
    sim.step();
    let snap = build_snapshot(&sim, "0_0", "hostNode", 123_456);
    let sv = &snap.ships[0];
    assert_eq!(sv.weapon, "railgun");
    assert!(sv.weapons.contains(&"railgun".to_string()));
    assert_eq!(snap.ruleset, sim.rules);
    assert!(apply_client_msg(&mut sim, "playerA", ClientMsg::Bye), "only a goodbye says so");
}

#[test]
fn tech_is_priced_and_gated() {
    let mut sim = Sim::new();
    let me = "playerA".to_string();
    let build = |kind: &str| ClientMsg::Build { kind: kind.into() };
    apply_client_msg(&mut sim, "playerA", join("Ace"));
    apply_client_msg(&mut sim, "playerA", build("gun"));
    assert_eq!(sim.ships.get(&me).unwrap().body.guns, 1, "a ship without minerals buys nothing");
    sim.ships.get_mut(&me).unwrap().body.minerals = 350;
    apply_client_msg(&mut sim, "playerA", build("gun"));
    apply_client_msg(&mut sim, "playerA", build("twin-guns"));
    assert_eq!(sim.ships.get(&me).unwrap().body.minerals, 200, "a node is paid for once");
    apply_client_msg(&mut sim, "playerA", build("hull"));
    apply_client_msg(&mut sim, "playerA", build("speed"));
    apply_client_msg(&mut sim, "playerA", build("unheard-of"));
    let ship = sim.ships.get(&me).unwrap();
    assert_eq!((ship.body.hp, ship.body.max_hp, ship.body.minerals), (150, 150, 0));
    assert_eq!(ship.tech, vec!["twin-guns", "hull-1", "thruster-1"]);
    apply_client_msg(&mut sim, "playerA", ClientMsg::Weapon { id: "laser".into() });
    assert_eq!(sim.ships.get(&me).unwrap().weapon, "", "a weapon that is not unlocked stays out of reach");
    sim.ships.get_mut(&me).unwrap().body.minerals = 600;
    apply_client_msg(&mut sim, "playerA", build("tech-laser"));
    apply_client_msg(&mut sim, "playerA", build("tech-missile"));
    apply_client_msg(&mut sim, "playerA", ClientMsg::Weapon { id: "missile".into() });
    let ship = sim.ships.get(&me).unwrap();
    assert_eq!((ship.weapon.as_str(), ship.body.minerals), ("missile", 50));
    assert_eq!(ship.weapons, vec!["laser", "missile"]);
    apply_client_msg(&mut sim, "nobody", build("gun"));
    assert_eq!(sim.ship_count(), 1, "an order of nobody's ship launches none");
}

#[test]
fn a_warm_sector_keeps_its_scene() {
    let pickup = |x: i32| Pickup { x, y: 5, kind: 1 };
    let mut home = Sim::new();
    apply_client_msg(&mut home, "me", join("Me"));
    home.scene.pickups.push(pickup(1));
    let mut r = Replica::new(Sim::new());
    r.sim.scene.pickups.push(pickup(2));
    r.advance_to(5);
    r.set_tick(9);
    r.advance_to(3);
    assert_eq!((r.tick(), r.sim.scene.pickups.len()), (9, 1));

    let east = SectorId::new(1, 0);
    let mut h = SectorHost::from_home(home);
    h.ensure(east);
    assert!(h.sim(east).unwrap().scene.pickups.is_empty());
    h.reps.get_mut(&east).unwrap().sim.scene.pickups.push(pickup(3));
    h.ensure(east);
    h.apply_local_now("me", ClientMsg::Respawn);
    h.advance_all(3);
    h.reps.get_mut(&SectorId::new(0, 0)).unwrap().sim.send_out("me", east);
    assert_eq!(h.step_transits("me"), Some(east));
    assert_eq!(h.sim(east).unwrap().scene.pickups, vec![pickup(3)]);
    assert_eq!(h.sim(SectorId::new(0, 0)).unwrap().scene.pickups, vec![pickup(1)]);
}

#[test]
fn client_cannot_spoof_hue() {
    let mut sim = Sim::new();
    apply_client_msg(
        &mut sim,
        "p",
        ClientMsg::Input { thrust: false, turn: 0, fire: false, aim: None, name: Some("nm".into()) },
    );
    sim.step();
    let snap = build_snapshot(&sim, "0_0", "h", 0);
    assert_eq!(snap.ships[0].hue, hue_for("p"));
}

#[test]
fn view_scoped_snapshot_only_includes_visible_ships() {
    let mut sim = Sim::new();
    apply_client_msg(&mut sim, "near", join("N"));
    apply_client_msg(&mut sim, "far", join("F"));
    for (id, at) in [("near", 200), ("far", 2800)] {
        let s = sim.ships.get_mut(&id.to_string()).unwrap();
        s.body.x = at;
        s.body.y = at;
    }
    sim.step();

    let viewport = Aabb::new(0, 0, 600, 600);
    let snap = build_snapshot_view(&sim, "0_0", "h", 0, viewport);
    let ids: Vec<&str> = snap.ships.iter().map(|s| s.id.as_str()).collect();
    assert!(ids.contains(&"near"), "the near ship is visible");
    assert!(!ids.contains(&"far"), "the far ship is culled — bounded per-client bandwidth");

    let full = build_snapshot(&sim, "0_0", "h", 0);
    assert_eq!(full.ships.len(), 2);
    assert_eq!(full.tick, sim.tick);
}

#[test]
fn messages_become_orders() {
    assert_eq!(tech_node_for("gun"), "twin-guns");
    assert_eq!(tech_node_for("speed"), "thruster-1");
    assert_eq!(tech_node_for("tech-railgun"), "tech-railgun");
    assert_eq!(command_for("attack", None, None), Some(FactionCommand::AttackNearest));
    assert_eq!(command_for("attackmove", Some(1), Some(2)), Some(FactionCommand::AttackMove { x: 1, y: 2 }));
    assert_eq!(command_for("attackmove", Some(1), None), None);
    assert_eq!(command_for("dance", None, None), None);
    assert_eq!(role_str(ShipRole::Hauler), "hauler");
    assert_eq!(command_str(FactionCommand::Hold), "hold");
    assert!(pickup_hue(0) < 360);
    let mut sim = Sim::new();
    assert!(!apply_client_msg(&mut sim, "p", join("P")));
    assert!(apply_client_msg(&mut sim, "p", ClientMsg::Bye));
    assert_eq!(sim.ship_count(), 0);
}

#[test]
fn a_packet_applies_each_reliable_message_once() {
    let packet = || ClientPacket {
        reliable: vec![SeqMsg { seq: 1, msg: join("P") }, SeqMsg { seq: 2, msg: ClientMsg::Respawn }],
        input: Some(ClientMsg::Input { thrust: true, turn: 0, fire: false, aim: None, name: None }),
        input_seq: 5,
    };
    let mut sim = Sim::new();
    apply_client_packet(&mut sim, "p", packet());
    let after = sim.journal.len();
    let ship = sim.ships.get(&"p".to_string()).unwrap();
    assert_eq!((ship.input_ack, ship.last_input_seq), (2, 5));
    apply_client_packet(&mut sim, "p", packet());
    assert_eq!(sim.journal.len(), after, "a packet that comes twice changes nothing");
}

#[test]
fn a_commit_is_named_by_what_it_says() {
    let op = ShapeOp::Place { cell: CellId { depth: 1, x: 0, y: 1 }, node: "n\"1\"".into(), from_snapshot: None };
    assert_eq!(
        spell_op(&op),
        "Place { cell: CellId { depth: 1, x: 0, y: 1 }, node: \"n\\\"1\\\"\", from_snapshot: None }"
    );
    let id = commit_id("prev", 7, &op);
    assert_eq!(id.len(), 18);
    assert!(id.starts_with("sc"));
    assert_eq!(id, commit_id("prev", 7, &op));
    assert_ne!(id, commit_id("prev", 8, &op));
    assert_ne!(id, commit_id("other", 7, &op));
    assert_eq!(fnv1a(""), 0x811c9dc5);
    assert_eq!(fnv1a("a"), 0xe40c292c);
    assert_eq!(fnv64(0xcbf29ce484222325, b"a"), 0xaf63dc4c8601ec8c);
}

#[test]
fn topics_are_routed() {
    assert_eq!(route("ce-game/spacegame/galaxy"), Route::Shape);
    assert_eq!(route("ce-game/spacegame/control"), Route::Control);
    assert_eq!(route("ce-game/spacegame/1.0.0/load"), Route::Load);
    assert_eq!(route("ce-game/spacegame/1.0.0/state"), Route::Other);
}

#[test]
fn a_lone_node_runs_the_root_and_splits_it_when_hot() {
    let mut opts = NodeOpts::default();
    opts.max_local_cells = 8;
    opts.gateway = true;
    let (mut node, effects) = Node::start("me".into(), opts);
    assert!(effects.iter().any(|e| matches!(e, Effect::Start { cell, .. } if *cell == CellId::root())));
    assert!(node.local.contains(&CellId::root()));
    let hot = CellLoad { players: 9999, entities: 0, tick_p99_us: 0, bandwidth_bps: 0, epoch: 1 };
    let mut split = false;
    for _ in 0..8 {
        let hb = node.heartbeat();
        node.on_heartbeat(hb);
        node.on_load(LoadFrame { cell: CellId::root(), host: "me".into(), load: hot });
        node.loads.insert(CellId::root(), hot);
        let fleet = node.build_fleet(&Vec::<AtlasEntry>::new());
        let pass = node.decide(&fleet);
        for a in &pass.actions {
            let wanted = node.deployments(a);
            let accepted = vec![true; wanted.len()];
            let done = node.execute(a, &accepted);
            if done.iter().any(|e| matches!(e, Effect::Announce { .. })) {
                split = true;
            }
        }
        node.finish(pass.seen);
        if split {
            break;
        }
    }
    assert!(split, "the hot root was split");
    assert_eq!(node.galaxy.leaves().len(), 4);
    assert!(!node.local.contains(&CellId::root()));
    let stops = node.stop_all();
    assert_eq!(stops.len(), 4);
}

#[test]
fn followers_take_over_a_shape_they_hear_of() {
    let children: [CellId; 4] = CellId::root().children().try_into().unwrap();
    let op = ShapeOp::Split {
        cell: CellId::root(),
        children,
        place_on: ["a".into(), "b".into(), "c".into(), "follower".into()],
        from_snapshot: "S".into(),
    };
    let cid = commit_id("", 3, &op);
    let c = ShapeCommit { cid, prev: "".into(), controller: "a".into(), epoch: 3, op };
    let (mut node, _) = Node::start("follower".into(), NodeOpts::default());
    let effects = node.on_commit(&c);
    assert_eq!(node.galaxy.leaves().len(), 4);
    assert!(node.local.contains(&children[3]) && !node.local.contains(&children[0]));
    assert!(effects.iter().any(|e| matches!(e, Effect::Start { cell, .. } if *cell == children[3])));
    let mut watch = GalaxyWatch::new();
    watch.on_commit(&c);
    assert_eq!(watch.galaxy.leaves(), node.galaxy.leaves());
    let dir = gateway_directory("me", "eu", &watch.control, "wss://me");
    assert_eq!(dir.gateways.len(), 1);
    assert_eq!(dir.gateways[0].node_id, "me");
}

#[test]
fn agreement_does_not_depend_on_who_was_heard_first() {
    let claim = |node: &str, hash: u64| StateProof { region: "r".into(), node: node.into(), tick: 7, hash };
    let ahead = agree(&vec![claim("c", 9), claim("a", 4), claim("d", 4), claim("b", 9)]);
    let back = agree(&vec![claim("b", 9), claim("d", 4), claim("a", 4), claim("c", 9)]);
    assert_eq!(ahead, back);
    assert_eq!(ahead.quorum_hash, None, "two against two is no majority");
    assert_eq!(ahead.agree, vec!["a", "d"], "the lowest hash counts as the most common one on a tie");
    assert_eq!(ahead.dissent, vec!["b", "c"]);
}

#[test]
fn recovery_keeps_the_healthy_and_adds_the_new() {
    let mut set = ReplicaSet::new("r", "host", ReplicationConstraint { k: 4 }, 0);
    set.admit_node("b", 0);
    set.admit_node("a", 0);
    set.observe("a", 30);
    set.observe("b", 30);
    set.expire(40, 15);
    let cand = |id: &str, dist: u32| ReplicaCandidate {
        node_id: id.into(),
        rtt_ms: Some(20),
        in_game_dist: dist,
        free_cores: 4,
        alive: true,
    };
    let plan = set.plan(&vec![cand("x", 900), cand("y", 100), cand("a", 50), cand("b", 60)]);
    set.apply(&plan, 41);
    let members: Vec<(&str, bool, u64, bool)> = set
        .members
        .iter()
        .map(|m| (m.node_id.as_str(), m.role == ReplicaRole::Primary, m.last_seen_tick, m.healthy))
        .collect();
    assert_eq!(
        members,
        vec![("b", false, 30, true), ("a", true, 30, true), ("y", false, 41, true), ("x", false, 41, true)]
    );
}
