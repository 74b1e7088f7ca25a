use spacegame::ai::{next_objective, Contact, Objective, Rock, Senses, RETREAT_TICKS};
use spacegame::auth::{ability_name, checks_for, verify_join, CapLink, JoinFault};
use spacegame::client::{reconnect_backoff_ms, Platform};
use spacegame::cloud_hetzner::{cloud_init, location_for, HetznerBurst, Size};
use spacegame::coords::{Anchor, GalaxyPos, ANCHOR_SPAN, QUANT, SPAN8};
use spacegame::fleet::{CapacitySource, RegionHint};
use spacegame::noise::{lattice, octave_seed};
use spacegame::physics::{assign_lod, plan_step, solves, BroadPhase, Lod, Point};
use spacegame::aabb::Aabb;
use spacegame::shard::SectorId;
use spacegame::sim::{FactionCommand, ShipRole, SECTOR_SIZE};

fn senses() -> Senses {
    Senses {
        now: 1000,
        hp_frac: 1000,
        enemy: None,
        rock: None,
        current_rock_live: false,
        current_target_held: false,
        engage_r: 1000,
    }
}

fn contact(id: &str, x: i32, dist: i32) -> Contact {
    Contact { id: id.into(), x, y: 0, vx: 0, vy: 0, dist }
}

#[test]
fn a_fighter_engages_an_enemy_in_range() {
    let mut s = senses();
    s.enemy = Some(contact("x", 100, 500));
    let o = next_objective(ShipRole::Fighter, FactionCommand::Defend, &Objective::Idle, &s);
    assert_eq!(o, Objective::Engage { target: "x".into(), since: 1000 });
    s.enemy = Some(contact("x", 100, 1001));
    let far = next_objective(ShipRole::Fighter, FactionCommand::Defend, &Objective::Idle, &s);
    assert_eq!(far, Objective::Escort);
}

#[test]
fn a_fighter_keeps_its_lock_even_as_the_target_drifts_out_of_nominal_range() {
    let mut s = senses();
    s.current_target_held = true;
    s.enemy = None;
    let cur = Objective::Engage { target: "x".into(), since: 900 };
    let o = next_objective(ShipRole::Fighter, FactionCommand::AttackNearest, &cur, &s);
    assert_eq!(o, Objective::Engage { target: "x".into(), since: 900 }, "lock and since are preserved");
}

#[test]
fn a_wounded_fighter_retreats_and_stays_broken_off_until_recovered() {
    let mut s = senses();
    s.hp_frac = 200;
    s.enemy = Some(contact("x", 10, 50));
    let o = next_objective(ShipRole::Fighter, FactionCommand::AttackNearest, &Objective::Idle, &s);
    let Objective::Retreat { until } = o else { panic!("should retreat, got {o:?}") };
    assert_eq!(until, 1000 + RETREAT_TICKS);

    let mut s2 = senses();
    s2.now = 1100;
    s2.hp_frac = 400;
    s2.enemy = Some(contact("x", 10, 50));
    let o2 = next_objective(ShipRole::Fighter, FactionCommand::AttackNearest, &Objective::Retreat { until }, &s2);
    assert_eq!(o2, Objective::Retreat { until });

    let mut s3 = senses();
    s3.now = 1200;
    s3.hp_frac = 700;
    s3.enemy = Some(contact("x", 10, 50));
    let o3 = next_objective(ShipRole::Fighter, FactionCommand::AttackNearest, &Objective::Retreat { until }, &s3);
    assert!(matches!(o3, Objective::Engage { .. }), "recovered fighter re-engages, got {o3:?}");
}

#[test]
fn a_drone_commits_to_a_vein_until_it_is_dry() {
    let mut s = senses();
    s.current_rock_live = true;
    s.rock = Some(Rock { cx: 9, cy: 9, x: 100, y: 100 });
    let cur = Objective::Mine { cx: 1, cy: 2 };
    let o = next_objective(ShipRole::Drone, FactionCommand::Defend, &cur, &s);
    assert_eq!(o, Objective::Mine { cx: 1, cy: 2 });

    s.current_rock_live = false;
    let o2 = next_objective(ShipRole::Drone, FactionCommand::Defend, &cur, &s);
    assert_eq!(o2, Objective::Mine { cx: 9, cy: 9 });
}

#[test]
fn hold_order_parks_everyone() {
    let s = senses();
    assert_eq!(next_objective(ShipRole::Fighter, FactionCommand::Hold, &Objective::Idle, &s), Objective::Idle);
    assert_eq!(next_objective(ShipRole::Drone, FactionCommand::Hold, &Objective::Idle, &s), Objective::Idle);
}

#[test]
fn attack_move_sends_ships_to_the_waypoint_when_no_enemy() {
    let mut s = senses();
    s.enemy = None;
    let o = next_objective(
        ShipRole::Fighter,
        FactionCommand::AttackMove { x: 500, y: 600 },
        &Objective::Idle,
        &s,
    );
    assert_eq!(o, Objective::Move { x: 500, y: 600 });
}

#[test]
fn a_mining_order_keeps_the_peace() {
    let mut s = senses();
    s.enemy = Some(contact("x", 10, 5));
    let cur = Objective::Engage { target: "x".into(), since: 1 };
    s.current_target_held = true;
    assert_eq!(next_objective(ShipRole::Fighter, FactionCommand::Mine, &cur, &s), Objective::Escort);
    assert_eq!(next_objective(ShipRole::Hauler, FactionCommand::AttackNearest, &cur, &s), Objective::Escort);
    assert_eq!(next_objective(ShipRole::Player, FactionCommand::AttackNearest, &cur, &s), Objective::Idle);
    assert_eq!(Objective::default(), Objective::Idle);
}

#[test]
fn mobile_budget_is_tighter_than_desktop_and_native() {
    let m = Platform::MobileBrowser.profile();
    let d = Platform::DesktopBrowser.profile();
    let n = Platform::Native.profile();
    assert!(m.view_radius < d.view_radius && d.view_radius < n.view_radius);
    assert!(m.max_entities < d.max_entities && d.max_entities < n.max_entities);
    assert!(m.snapshot_divisor >= d.snapshot_divisor, "mobile subsamples");
    assert!(!m.prefetch_assets && d.prefetch_assets, "mobile defers asset prefetch");
}

#[test]
fn all_platforms_predict_for_zero_delay() {
    for p in [Platform::Native, Platform::DesktopBrowser, Platform::MobileBrowser] {
        assert!(p.profile().predict, "local-first prediction is on everywhere");
    }
}

#[test]
fn viewport_is_centred_and_sized() {
    let p = Platform::DesktopBrowser.profile();
    let vp = p.viewport(1000, 500);
    assert_eq!(vp.min_x, 1000 - p.view_radius);
    assert_eq!(vp.max_y, 500 + p.view_radius);
    assert!(vp.contains_point(1000, 500));
}

#[test]
fn mobile_subsamples_snapshots() {
    let m = Platform::MobileBrowser.profile();
    assert!(m.should_process(0) && !m.should_process(1) && m.should_process(2));
    let n = Platform::Native.profile();
    assert!(n.should_process(0) && n.should_process(1), "native processes every tick");
    let mut every = n;
    every.snapshot_divisor = 0;
    assert!(every.should_process(7), "no divisor counts as one");
}

#[test]
fn interest_follows_the_player_and_slides_across_seams() {
    let size = SECTOR_SIZE as i64;
    let p = Platform::DesktopBrowser.profile();
    let mid = p.interest_set(size / 2, size / 2);
    assert_eq!(mid, vec![SectorId::new(0, 0)]);
    let edge = p.interest_set(size - 50, size / 2);
    assert_eq!(edge.len(), 2);
    assert!(edge.contains(&SectorId::new(0, 0)) && edge.contains(&SectorId::new(1, 0)));
    assert_eq!(p.interest_set(size - 50, size - 50).len(), 4);
    let m = Platform::MobileBrowser.profile();
    assert_eq!(m.interest_set(size - 1500, size / 2), vec![SectorId::new(0, 0)]);
}

#[test]
fn backoff_grows_and_caps() {
    assert_eq!(reconnect_backoff_ms(0), 250);
    assert_eq!(reconnect_backoff_ms(1), 500);
    assert!(reconnect_backoff_ms(20) <= 8000, "backoff is capped");
    assert!(reconnect_backoff_ms(3) > reconnect_backoff_ms(1));
    assert_eq!(reconnect_backoff_ms(5), 8000);
}

#[test]
fn cloud_init_joins_relay_and_runs_cell() {
    let ci = cloud_init("ce-net/spacegame:latest", "/ip4/178.105.145.170/tcp/4001/p2p/RELAY");
    assert!(ci.contains("install.sh"));
    assert!(ci.contains("CE_BOOTSTRAP_PEERS=/ip4/178.105.145.170"));
    assert!(ci.contains("spacegame node"));
    assert!(ci.starts_with("#cloud-config\npackage_update: true\nruncmd:\n  - curl "));
    assert!(ci.contains("    # (mesh_deploy of ce-net/spacegame:latest). Nothing"));
    assert!(ci.contains("--host-only --image ce-net/spacegame:latest\n    Restart=always\n"));
    assert!(ci.ends_with("  - systemctl enable --now spacegame-cell\n"));
}

#[test]
fn region_maps_to_nearest_datacentre() {
    assert_eq!(location_for(&RegionHint("us-east".into())), "ash");
    assert_eq!(location_for(&RegionHint("whatever".into())), "fsn1");
    assert_eq!(location_for(&RegionHint("us-west".into())), "hil");
    assert_eq!(location_for(&RegionHint("asia".into())), "sin");
}

#[test]
fn sizes_and_prices_of_rented_servers() {
    assert_eq!(Size::Small.server_type(), "cpx21");
    assert_eq!(Size::Medium.cell_budget(), 6);
    assert_eq!(Size::Large.server_type(), "cpx41");
    let p = HetznerBurst {
        api_token: String::new(),
        relay_multiaddr: "r".into(),
        size: Size::Small,
        price_per_min: u128::MAX,
    };
    assert_eq!(p.name(), "hetzner");
    assert_eq!(p.price_per_min(&RegionHint("eu".into())), u64::MAX);
    let s = HetznerBurst::source(&RegionHint("eu".into()), "i-9".into());
    assert_eq!(
        s,
        CapacitySource::CloudBurst {
            provider: "hetzner".into(),
            region: "eu".into(),
            instance_id: "i-9".into()
        }
    );
}

fn link(a: u8, b: u8) -> CapLink {
    CapLink { issuer: [a; 32], audience: [b; 32] }
}

#[test]
fn rejects_garbage_cap() {
    let bad = verify_join("Ada", Err("not-hex".into()), Ok(()), Ok(()));
    assert!(bad.is_err());
    assert_eq!(bad.unwrap_err().message(), "malformed vouch cap: not-hex");
    let empty = verify_join("Ada", Ok(Vec::new()), Ok(()), Ok(()));
    assert!(empty.is_err());
    assert_eq!(empty.unwrap_err().message(), "empty vouch chain");
}

#[test]
fn a_vouch_names_its_node_in_hex() {
    let chain = vec![link(0xa0, 1), link(2, 0x0f)];
    let c = checks_for("Ada", &chain).unwrap();
    assert_eq!(c.root, [0xa0; 32]);
    assert_eq!(c.audience, [0x0f; 32]);
    assert_eq!(c.login, "account:login");
    assert_eq!(c.named, "account:name:Ada");
    assert_eq!(ability_name("Bob"), "account:name:Bob");
    let v = verify_join("Ada", Ok(chain), Ok(()), Ok(())).unwrap();
    assert_eq!(v.node, "a0".repeat(32));
    assert_eq!(v.name, "Ada");
}

#[test]
fn a_vouch_without_its_grants_is_refused() {
    let chain = vec![link(1, 1)];
    let no_login = verify_join("Ada", Ok(chain.clone()), Err("no login".into()), Ok(()));
    assert_eq!(no_login, Err(JoinFault::Refused { reason: "no login".into() }));
    let no_name = verify_join("Ada", Ok(chain), Ok(()), Err("other name".into()));
    assert_eq!(no_name.unwrap_err().message(), "other name");
}

#[test]
fn span_constants_are_consistent() {
    assert_eq!(SPAN8 % QUANT, 0, "ANCHOR_SPAN must be integral for exact fixed-point");
    assert_eq!(SPAN8, 72_000);
    assert_eq!(ANCHOR_SPAN, SECTOR_SIZE as i64, "anchor grid must equal the sector grid");
}

#[test]
fn normalize_keeps_point_and_bounds_local() {
    let p = GalaxyPos::new(Anchor::new(3, -2), (9000 * 8) + 100, -60);
    let n = p.normalize();
    assert!(n.x >= 0 && n.x < SPAN8, "x in [0,span): {}", n.x);
    assert!(n.y >= 0 && n.y < SPAN8, "y in [0,span): {}", n.y);
    assert_eq!(n.anchor, Anchor::new(4, -3));
    assert_eq!(n.global8(), p.global8());
}

#[test]
fn fixed8_is_origin_invariant() {
    let a = GalaxyPos::new(Anchor::new(1, 0), 0, 1500 * 8);
    let b = GalaxyPos::new(Anchor::new(0, 0), 9000 * 8, 1500 * 8);
    let c = GalaxyPos::new(Anchor::new(2, 0), -9000 * 8, 1500 * 8);
    assert_eq!(a.fixed8(), b.fixed8());
    assert_eq!(a.fixed8(), c.fixed8());

    for gx in [-24, 0, 138, 36_000, 71_996] {
        for gy in [-72_008, -4, 984, 72_000, 144_000] {
            let base = GalaxyPos::new(Anchor::origin(), gx, gy);
            let key = base.fixed8();
            for (sx, sy) in [(1i64, 0i64), (-2, 3), (2, -1), (-1, -1)] {
                let shifted = GalaxyPos::new(Anchor::new(sx, sy), gx - sx * SPAN8, gy - sy * SPAN8);
                assert_eq!(shifted.fixed8(), key, "anchor shift ({sx},{sy}) changed the key");
            }
        }
    }
}

#[test]
fn galaxy_scale_keeps_sub_unit_precision() {
    let far = Anchor::new(100_000_000_000_000_000, 0);
    let p1 = GalaxyPos::new(far, 800, 1500 * 8);
    let p2 = GalaxyPos::new(far, 801, 1500 * 8);
    assert_ne!(p1.fixed8(), p2.fixed8(), "anchored coords resolve 1/8 unit at galactic distance");

    let span = ANCHOR_SPAN as f64;
    let g1 = far.ax as f64 * span + 100.000;
    let g2 = far.ax as f64 * span + 100.125;
    assert_eq!(g1, g2, "a flat f64 global cannot distinguish 1/8 unit at 9e20 m — hence anchoring");
}

#[test]
fn delta_recovers_separation_across_frames() {
    let a = GalaxyPos::new(Anchor::new(5, 5), 100 * 8, 200 * 8);
    let b = GalaxyPos::new(Anchor::new(6, 5), 50 * 8, 260 * 8);
    let (dx, dy) = b.delta(a);
    assert_eq!(dx, 8950 * 8, "dx={dx}");
    assert_eq!(dy, 60 * 8, "dy={dy}");
}

#[test]
fn transit_reanchoring_preserves_canonical_key() {
    let before = GalaxyPos::new(Anchor::new(4, 1), SPAN8 + 24, 1500 * 8);
    let after = GalaxyPos::new(Anchor::new(5, 1), 24, 1500 * 8);
    assert_eq!(before.fixed8(), after.fixed8());
}

#[test]
fn negative_local_carries_down() {
    let p = GalaxyPos::new(Anchor::new(0, 0), -8, -1);
    let (ax, ay, lx, ly) = p.fixed8();
    assert_eq!((ax, ay), (-1, -1), "a negative local rolls the anchor back one cell");
    assert_eq!(lx, SPAN8 as i32 - QUANT as i32, "-1.0 unit is SPAN8-8 eighths");
    assert_eq!(ly, SPAN8 as i32 - 1, "-0.125 unit is SPAN8-1 eighths");
}

#[test]
fn anchors_are_sectors() {
    let s = SectorId::new(-4, 7);
    assert_eq!(Anchor::from_sector(s), Anchor::new(-4, 7));
    assert_eq!(Anchor::new(-4, 7).to_sector(), s);
    assert_eq!(Anchor::new(1, 1).offset(2, -3), Anchor::new(3, -2));
    assert_eq!(Anchor::new(2, -1).origin8(), (144_000, -72_000));
    assert_eq!(GalaxyPos::at(Anchor::new(2, 0)).to_frame(Anchor::new(1, 0)), (72_000, 0));
}

#[test]
fn lod_assignment_steps_down_with_distance() {
    let bodies = vec![
        Point { x: 0, y: 0 },
        Point { x: 150, y: 0 },
        Point { x: 600, y: 0 },
        Point { x: 5000, y: 0 },
    ];
    let lods = assign_lod(&bodies, &vec![Point { x: 0, y: 0 }], 100, 400, 1000);
    assert_eq!(lods, vec![Lod::High, Lod::Medium, Lod::Low, Lod::Registered]);
    let unwatched = assign_lod(&bodies, &Vec::new(), 100, 400, 1000);
    assert!(unwatched.iter().all(|l| *l == Lod::Registered));
    assert_eq!(plan_step(&lods), (4, 8));
    assert_eq!(plan_step(&unwatched), (1, 0));
    assert_eq!(plan_step(&Vec::new()), (1, 0));
    assert!(solves(Lod::Low, Lod::High) && !solves(Lod::High, Lod::Registered));
    assert_eq!(Lod::Medium.budget(), (2, 4));
    assert_eq!(Lod::Low.budget(), (1, 2));
}

#[test]
fn the_broad_phase_pairs_bodies_once() {
    let mut b = BroadPhase::new();
    let boxes = vec![
        Aabb::around(0, 0, 5),
        Aabb::around(8, 0, 5),
        Aabb::around(500, 0, 5),
        Aabb::around(4, 4, 5),
    ];
    for (i, x) in boxes.iter().enumerate() {
        assert_eq!(b.add(*x), i);
    }
    let loose = vec![false; 4];
    let pairs = b.pairs(&boxes, &loose);
    assert_eq!(pairs, vec![(0, 3), (0, 1), (1, 3)], "by the first body, then as the tree has them");
    let fixed = vec![true, true, false, false];
    assert_eq!(b.pairs(&boxes, &fixed), vec![(0, 3), (1, 3)]);
    let mut moved = boxes.clone();
    moved[2] = Aabb::around(0, 3, 5);
    assert!(b.refit(2, moved[2]));
    assert!(!b.refit(2, Aabb::around(1, 3, 5)));
    assert!(b.pairs(&moved, &loose).contains(&(0, 2)));
}

#[test]
fn the_lattice_is_the_same_everywhere() {
    let v = lattice(3, -7, 42);
    assert_eq!(v, lattice(3, -7, 42));
    assert!(v < 1 << 24);
    let values: std::collections::BTreeSet<u32> = (0..100).map(|i| lattice(i, i * 3, 7)).collect();
    assert!(values.len() > 95);
    // One value worked out step by step.
    let mut h = 0x811c9dc5u32 ^ 7u32.wrapping_mul(0x9e3779b9);
    h = (h ^ 1u32).wrapping_mul(0x0100_0193);
    h = (h ^ (-2i32 as u32)).wrapping_mul(0x0100_0193);
    h ^= h >> 15;
    h = h.wrapping_mul(0x2c1b_3c6d);
    h ^= h >> 12;
    assert_eq!(lattice(1, -2, 7), h & 0x00ff_ffff);
    assert_eq!(octave_seed(7, 2), 209);
    assert_ne!(lattice(1, 1, 1), lattice(1, 1, 2));
}
