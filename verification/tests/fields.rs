use spacegame::aabb::{Aabb, AabbNodeInfo, Region};
use spacegame::coords::{Anchor, GalaxyPos, SPAN8};
use spacegame::domain::{Bounds, Domain, DomainField, Owned, UNOWNED};
use spacegame::galaxy::World;
use spacegame::mapview::{
    CellReport, DotKind, EntityDot, HostReport, MapAggregator, ViewQuery, ViewScale, MAP_TOPIC,
};
use spacegame::shard::SectorId;
use spacegame::sim::{Sim, SECTOR_SIZE};

struct Thing {
    owner: &'static str,
    id: u64,
    x: World,
    y: World,
    r: World,
}

impl Owned for Thing {
    fn owner(&self) -> &str {
        self.owner
    }
    fn entity_id(&self) -> u64 {
        self.id
    }
    fn pos(&self) -> (World, World) {
        (self.x, self.y)
    }
    fn radius(&self) -> World {
        self.r
    }
}

fn e(owner: &'static str, id: u64, x: World, y: World) -> Thing {
    Thing { owner, id, x, y, r: 1 }
}

#[test]
fn domain_footprint_follows_the_owned_entities() {
    let owned = vec![e("p", 0, 0, 0), e("p", 1, 100, 0), e("p", 2, 0, 50)];
    let d = Domain::build("p", (0, 0), &owned, 200);
    assert!(d.bounds.contains_point(0, 0));
    assert!(d.bounds.contains_point(100, 0));
    assert!(d.bounds.contains_point(0, 50));
    assert_eq!(d.entities, 3);
    assert!(d.interest.contains_point(101 + 199, 0));
    assert!(!d.interest.contains_point(101 + 201, 0));
}

#[test]
fn the_owner_is_never_outside_its_own_domain() {
    for &(x, y) in &[(0, 0), (1_000_000_000, -700_000_000), (-33_000_000_000, 44_000_000_000)] {
        let d = Domain::build("p", (x, y), &Vec::<Thing>::new(), 10);
        assert!(d.bounds.contains_point(x, y), "anchor must lie inside its own domain at ({x},{y})");
    }
}

#[test]
fn overlapping_bubbles_see_each_other_disjoint_ones_do_not() {
    let near = vec![
        Domain::build("a", (0, 0), &vec![e("a", 0, 0, 0)], 80),
        Domain::build("b", (100, 0), &vec![e("b", 0, 100, 0)], 80),
    ];
    let field = DomainField::new(near);
    let seen: Vec<&str> = field.interest("a").iter().map(|d| d.owner.as_str()).collect();
    assert_eq!(seen, vec!["b"], "a must see b when their bubbles overlap");
    assert_eq!(field.interest("b").iter().map(|d| d.owner.as_str()).collect::<Vec<_>>(), vec!["a"]);

    let far = vec![
        Domain::build("a", (0, 0), &vec![e("a", 0, 0, 0)], 80),
        Domain::build("b", (1_000_000, 0), &vec![e("b", 0, 1_000_000, 0)], 80),
    ];
    let field = DomainField::new(far);
    assert!(field.interest("a").is_empty(), "disjoint bubbles share no interest");
    assert!(field.interest("nobody").is_empty());
}

#[test]
fn environment_is_claimed_by_the_nearest_domain_and_is_total() {
    let field = DomainField::new(vec![
        Domain::build("a", (0, 0), &vec![e("a", 0, 0, 0)], 500),
        Domain::build("b", (1000, 0), &vec![e("b", 0, 1000, 0)], 500),
    ]);
    assert_eq!(field.claim(100, 0, 10_000), Some("a"), "nearer to a");
    assert_eq!(field.claim(900, 0, 10_000), Some("b"), "nearer to b");
    assert_eq!(field.claim(500, 0, 10_000), Some("a"));
    let lonely = DomainField::new(vec![Domain::build("a", (0, 0), &vec![e("a", 0, 0, 0)], 10)]);
    assert_eq!(lonely.claim(1_000_000_000, 1_000_000_000, 100), None);
}

#[test]
fn sticky_claim_does_not_flap_in_the_overlap() {
    let field = DomainField::new(vec![
        Domain::build("a", (0, 0), &vec![e("a", 0, 0, 0)], 5000),
        Domain::build("b", (1000, 0), &vec![e("b", 0, 1000, 0)], 5000),
    ]);
    let hysteresis = 10_000_000;
    assert_eq!(field.claim_sticky(501, 0, 10_000, "a", hysteresis), Some("a"));
    assert_eq!(field.claim_sticky(501, 0, 10_000, "a", 0), Some("b"));
}

#[test]
fn broadphase_matches_brute_force() {
    let mut domains = Vec::new();
    for i in 0..64u64 {
        let x = ((i * 2_654_435_761) % 100_000) as World;
        let y = ((i * 40_503) % 100_000) as World;
        let owner: &'static str = Box::leak(format!("p{i}").into_boxed_str());
        domains.push(Domain::build(owner, (x, y), &vec![e(owner, i, x, y)], 1500));
    }
    let field = DomainField::new(domains);
    for d in field.domains() {
        let mut brute: Vec<&str> = field
            .domains()
            .iter()
            .filter(|o| o.owner != d.owner && o.interest.intersects(&d.interest))
            .map(|o| o.owner.as_str())
            .collect();
        let mut tree: Vec<&str> = field.interest(&d.owner).iter().map(|o| o.owner.as_str()).collect();
        brute.sort();
        tree.sort();
        assert_eq!(tree, brute, "broad-phase interest must equal brute force for {}", d.owner);
    }
}

#[test]
fn bounds_resolve_to_the_sectors_they_touch() {
    let s = SECTOR_SIZE as World;
    assert_eq!(Bounds::around(s / 2, s / 2, 100).sectors(), vec![SectorId::new(0, 0)]);
    let edge = Bounds::around(s - 1, s / 2, 50).sectors();
    assert!(edge.contains(&SectorId::new(0, 0)) && edge.contains(&SectorId::new(1, 0)));
    assert_eq!(edge.len(), 2, "an east-edge bubble touches exactly two sectors");
    assert_eq!(Bounds::around(s - 1, s - 1, 50).sectors().len(), 4);
    assert_eq!(Bounds::around(-1, -1, 0).sectors(), vec![SectorId::new(-1, -1)]);
}

#[test]
fn from_sim_builds_a_world_framed_domain_per_pilot_and_folds_in_their_fleet() {
    let mut sim = Sim::for_sector(SectorId::new(1, 0), 1);
    sim.join("pilot", "Ace", 0);
    let field = DomainField::from_sim(&sim, 1000);
    let d = field.get("pilot").expect("the pilot has a domain");
    assert!(d.anchor.0 >= SECTOR_SIZE as World, "domain anchored in the sim's world-frame sector");
    assert!(d.bounds.contains_point(d.anchor.0, d.anchor.1), "pilot inside its own domain (seamless)");
    assert!(d.entities >= 1);
}

#[test]
fn a_fleet_without_its_pilot_is_anchored_in_its_very_middle() {
    let mut sim = Sim::for_sector(SectorId::new(0, 0), 1);
    sim.join("wing-1", "W1", 0);
    sim.join("wing-2", "W2", 0);
    for (id, x) in [("wing-1", 100), ("wing-2", 105)] {
        let ship = sim.ships.get_mut(&id.to_string()).unwrap();
        ship.owner = Some("away".into());
        ship.body.x = x;
        ship.body.y = 40;
    }
    let field = DomainField::from_sim(&sim, 1000);
    let d = field.get("away").unwrap();
    assert_eq!((d.anchor, d.half), ((102, 40), (true, false)), "the middle is 102.5");
    assert_eq!(d.entities, 2);
}

#[test]
fn anchors_between_two_units_count_as_they_are() {
    let bubble = |owner: &str, x: World, half: bool| Domain {
        owner: owner.into(),
        anchor: (x, 0),
        half: (half, false),
        bounds: Bounds::around(x, 0, 1),
        interest: Bounds::around(x, 0, 1),
        entities: 1,
    };
    let field = DomainField::new(vec![bubble("a", 10, true), bubble("b", 0, false)]);
    assert_eq!(field.claim(5, 0, 1000), Some("b"), "5 away against 5.5");
    assert_eq!(field.claim(6, 0, 1000), Some("a"), "4.5 away against 6");
    assert_eq!(field.claim(5, 0, 5), Some("b"));
    let lone = DomainField::new(vec![bubble("a", 10, true)]);
    assert_eq!(lone.claim(5, 0, 5), None, "5.5 is out of reach");
    assert_eq!(lone.claim(5, 0, 6), Some("a"));
    // From 5.5 away to 5 away the square falls by 5.25.
    assert_eq!(field.claim_sticky(5, 0, 1000, "a", 5), Some("b"));
    assert_eq!(field.claim_sticky(5, 0, 1000, "a", 6), Some("a"));
}

#[test]
fn from_entities_groups_by_owner() {
    let entities = vec![
        e("a", 0, 0, 0),
        e("a", 1, 10, 0),
        e("b", 0, 5000, 0),
        Thing { owner: UNOWNED, id: 99, x: 1, y: 1, r: 1 },
    ];
    let field = DomainField::from_entities(&entities, 100, |o: &str| match o {
        "a" => (0, 0),
        "b" => (5000, 0),
        _ => (0, 0),
    });
    assert_eq!(field.domains().len(), 2, "two players, the rock gets no domain");
    assert_eq!(field.get("a").unwrap().entities, 2);
    assert_eq!(field.claim(1, 1, 1_000_000), Some("a"));
    assert_eq!(field.total_entities(), 3);
}

#[test]
fn bounds_join_and_grow() {
    let b = Bounds::new(5, 6, 1, 2);
    assert_eq!((b.min_x, b.min_y, b.max_x, b.max_y), (1, 2, 5, 6));
    assert_eq!(b.center(), (3, 4));
    let g = b.expanded(10);
    assert!(g.contains_point(-9, -8) && !g.contains_point(-10, 0));
    let u = b.union(&Bounds::new(100, 100, 101, 101));
    assert!(u.contains_point(50, 50));
}

fn report(ax: i64, ay: i64, host: &str, players: u32) -> CellReport {
    CellReport {
        anchor: Anchor::new(ax, ay),
        host: host.into(),
        players,
        entities: players,
        tick_us: 1000,
        aabb_nodes: Vec::new(),
        dots: Vec::new(),
    }
}

#[test]
fn reach_slider_bounds_the_fetch() {
    let mut m = MapAggregator::new();
    for ax in [0i64, 1, 5, 50, 500] {
        m.ingest(report(ax, 0, "h", 1));
    }
    let center = GalaxyPos::at(Anchor::origin());

    let tight = m.view(&ViewQuery::new(center, SPAN8 * 2, 999));
    let cells: Vec<i64> = tight.cells.iter().map(|c| c.anchor.ax).collect();
    assert_eq!(cells, vec![0, 1], "a tight reach pulls only the adjacent cells");

    let wide = m.view(&ViewQuery::new(center, SPAN8 * 600, 999));
    assert_eq!(wide.fetched, 5, "a wide reach pulls the whole arm");
    assert!(wide.cells.windows(2).all(|w| w[0].dist2 <= w[1].dist2), "cells come back nearest-first");
}

#[test]
fn a_view_can_reach_as_far_as_there_are_steps() {
    let mut m = MapAggregator::new();
    for ax in [0i64, 100_000_000_000_000, -100_000_000_000_000, i64::MAX] {
        m.ingest(report(ax, ax, "h", 1));
    }
    let center = GalaxyPos::at(Anchor::origin());
    let all = m.view(&ViewQuery::new(center, i64::MAX, 999));
    let far: i128 = 100_000_000_000_000 * 72_000 - 36_000;
    assert_eq!(all.fetched, 1, "the corner of a square lies further out than its side");
    m.ingest(report(-100_000_000_000_000, 0, "h", 1));
    let more = m.view(&ViewQuery::new(center, i64::MAX, 999));
    assert_eq!(more.cells[1].dist2, far * far + 36_000 * 36_000);
    assert_eq!(m.view(&ViewQuery::new(center, i64::MIN, 999)).fetched, 0);
}

#[test]
fn a_cell_is_in_reach_to_the_end_of_its_half_diagonal() {
    let mut m = MapAggregator::new();
    m.ingest(report(0, 0, "h", 1));
    // Half of the diagonal is 50 911.69 steps.
    let seen = |off: i64, reach: i64| {
        let center = GalaxyPos::new(Anchor::origin(), 36_000 + off, 36_000);
        m.view(&ViewQuery::new(center, reach, 9)).fetched == 1
    };
    assert!(seen(50_911, 0));
    assert!(!seen(50_912, 0));
    assert!(seen(50_912, 1));
    assert!(!seen(50_913, 1));
    assert!(seen(1_000_000_050_911, 1_000_000_000_000));
    assert!(!seen(1_000_000_050_912, 1_000_000_000_000));
    assert!(seen(50_910, -1));
    assert!(!seen(50_911, -1));
    assert!(seen(0, -50_911));
    assert!(!seen(1, -50_911));
    assert!(!seen(0, -50_912));
}

#[test]
fn a_cell_whose_corner_is_in_reach_is_found() {
    let mut m = MapAggregator::new();
    m.ingest(report(0, 0, "h", 1));
    let center = GalaxyPos::new(Anchor::origin(), -30_000, -40_000);
    assert_eq!(m.view(&ViewQuery::new(center, 50_000, 9)).fetched, 1);
}

#[test]
fn max_cells_caps_and_reports_the_overflow() {
    let mut m = MapAggregator::new();
    for ax in 0..20 {
        m.ingest(report(ax, 0, "h", 1));
    }
    let v = m.view(&ViewQuery::new(GalaxyPos::at(Anchor::origin()), SPAN8 * 1000, 5));
    assert_eq!(v.fetched, 5, "only max_cells are returned");
    assert_eq!(v.dropped, 15, "the rest are surfaced as dropped");
    assert!(v.cells.iter().all(|c| c.anchor.ax < 5), "and they are the nearest five");
}

#[test]
fn scale_controls_level_of_detail() {
    let mut m = MapAggregator::new();
    let mut r = report(0, 0, "h", 2);
    r.aabb_nodes = vec![AabbNodeInfo { region: Region::of(&Aabb::new(10, 10, 50, 50)), depth: 0, leaf: true, count: 2 }];
    r.dots = vec![EntityDot {
        id: "p".into(),
        pos: GalaxyPos::new(Anchor::origin(), 800, 1600),
        kind: DotKind::Player,
    }];
    m.ingest(r);
    let center = GalaxyPos::new(Anchor::origin(), 800, 1600);

    let ship = m.view(&ViewQuery::new(center, SPAN8, 99));
    assert_eq!(ship.scale, ViewScale::Ship);
    assert_eq!(ship.cells[0].aabb_nodes.len(), 1, "ship scale draws AABB nodes");
    assert_eq!(ship.cells[0].dots.len(), 1, "ship scale draws dots");
    assert_eq!((ship.cells[0].dots[0].x, ship.cells[0].dots[0].y), (0, 0));

    let galaxy = m.view(&ViewQuery::new(center, SPAN8 * 500, 99));
    assert_eq!(galaxy.scale, ViewScale::Galaxy);
    assert!(galaxy.cells[0].aabb_nodes.is_empty(), "galaxy scale drops fine AABB nodes");
    assert!(galaxy.cells[0].dots.is_empty(), "galaxy scale drops per-entity dots");
}

#[test]
fn many_servers_merge_into_one_map() {
    let mut m = MapAggregator::new();
    for (host, ax) in [("alice", 0i64), ("bob", 1), ("cara", 2)] {
        let mut r = report(ax, 0, host, 4);
        r.dots = vec![EntityDot {
            id: format!("{host}-ship"),
            pos: GalaxyPos::new(Anchor::new(ax, 0), 36_000, 36_000),
            kind: DotKind::Player,
        }];
        m.ingest(r);
    }
    assert_eq!(m.known_cells(), 3, "one merged map across three servers");
    let view = m.view(&ViewQuery::new(GalaxyPos::at(Anchor::origin()), SPAN8 * 5, 64));
    assert_eq!(view.fetched, 3);
    let hosts: std::collections::BTreeSet<&str> = view.cells.iter().map(|c| c.host.as_str()).collect();
    assert_eq!(hosts.len(), 3, "every friend's server shows on the map");
    assert_eq!(view.total_players, 12);
    m.ingest_host(HostReport { cells: vec![report(1, 0, "bob", 9), report(7, 7, "dan", 1)] });
    assert_eq!(m.known_cells(), 4);
    m.forget(Anchor::new(7, 7));
    assert_eq!(m.known_cells(), 3);
    assert_eq!(MAP_TOPIC, "spacegame/map");
}

#[test]
fn view_is_precise_at_galactic_distance() {
    let far = Anchor::new(100_000_000_000_000_000, 0);
    let mut m = MapAggregator::new();
    let mut r = report(far.ax, far.ay, "h", 1);
    r.dots = vec![EntityDot { id: "p".into(), pos: GalaxyPos::new(far, 36_000, 36_000), kind: DotKind::Player }];
    m.ingest(r);
    let center = GalaxyPos::new(far, 36_000, 36_000);
    let v = m.view(&ViewQuery::new(center, SPAN8, 9));
    assert_eq!(v.fetched, 1);
    assert_eq!(v.cells[0].dots[0].x, 0, "dot is at the camera, sub-unit precise 9e20 m out");
    assert_eq!(ViewScale::for_reach(SPAN8 * 20), ViewScale::System);
}

#[test]
fn a_report_of_a_sim_lists_its_ships() {
    let mut sim = Sim::for_sector(SectorId::new(2, -1), 1);
    sim.join("a", "Ann", 10);
    sim.join("b", "Bo", 20);
    let r = CellReport::from_sim(&sim, "me", 777);
    assert_eq!(r.anchor, Anchor::new(2, -1));
    assert_eq!(r.players, 2);
    assert_eq!(r.host, "me");
    assert_eq!(r.tick_us, 777);
    assert_eq!(r.dots.len(), 2);
    assert!(r.dots.iter().all(|d| d.kind == DotKind::Player && d.pos.anchor == r.anchor));
    let filed: usize = r.aabb_nodes.iter().filter(|n| n.leaf).map(|n| n.count).sum();
    assert_eq!(filed, 2);
}
