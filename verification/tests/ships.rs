use spacegame::blueprint::{
    resolve_blueprint, resolve_design, validate_catalog, Blueprint, BpParam, Catalog, Fault, Frame, ObjectCategory,
    ObjectDef, ObjectStats, Placement, PlacementKind, Repeat, Setting, Transform2D, MAX_BLUEPRINT_DEPTH,
};
use spacegame::editor::{PlacedPart, ShipEditor, GRID, MAX_PARTS};
use spacegame::effects::{StatusKind, StatusStack};
use spacegame::hazard::{Hazards, Nebula, Well, WellKind, NEBULA_DRAG};
use spacegame::procgen::{
    generate_fleet, generate_ship, resolve_ship, GeneratedShip, GrownModule, ModuleDef, NoRoot, Rng, ShipGrammar, Slot,
    SlotRule, CERTAIN, MAX_MODULES,
};
use spacegame::shard::SectorId;
use spacegame::sim::SECTOR_SIZE;

// The shapes of the sample objects: a block, a wedge, a nozzle, a small disc, a room and a large disc.
fn all_shapes() -> Vec<bool> {
    vec![true; 6]
}

fn sample_objects() -> Vec<ObjectDef> {
    vec![
        ObjectDef::new("hull-1", "Hull Block", ObjectCategory::Structure, 0).mass(2000).hp(200),
        ObjectDef::new("armor-tri", "Armor Wedge", ObjectCategory::Armor, 1).mass(1500).hp(150),
        ObjectDef::new("thruster", "Thruster", ObjectCategory::Thruster, 2)
            .stats(ObjectStats { thrust: 50_000, power: -5_000, ..Default::default() }),
        ObjectDef::new("turret", "Turret", ObjectCategory::Turret, 3)
            .stats(ObjectStats { weapon: Some("blaster".into()), power: -2_000, ..Default::default() }),
        ObjectDef::new("command", "Command Center", ObjectCategory::CommandCenter, 4)
            .stats(ObjectStats { power: 10_000, ..Default::default() }),
        ObjectDef::new("tank", "Storage Tank", ObjectCategory::StorageTank, 5)
            .stats(ObjectStats { capacity: 500_000, ..Default::default() }),
    ]
}

fn design(id: &str, root: Vec<Placement>) -> Blueprint {
    Blueprint { id: id.into(), name: id.into(), params: vec![], root }
}

fn at(x: i32, y: i32) -> Transform2D {
    Transform2D::new(x, y, 0)
}

#[test]
fn structure_holds_a_command_center_inside_it() {
    let objects = sample_objects();
    let blueprints = vec![design(
        "core",
        vec![Placement::object("hull-1", Transform2D::identity())
            .with_children(vec![Placement::object("command", at(200, 0))])],
    )];
    let cat = Catalog { objects: &objects, blueprints: &blueprints };
    assert!(validate_catalog(&cat, &all_shapes()).is_ok(), "valid: command center is inside a structure");
    let craft = resolve_blueprint(&cat, "core", &vec![]).unwrap();
    assert_eq!(craft.parts.len(), 2);
    assert!(craft.parts.iter().any(|p| p.category == ObjectCategory::CommandCenter));
    let cc = craft.parts.iter().find(|p| p.def == "command").unwrap();
    assert_eq!(cc.frames, vec![Frame { x: 0, y: 0, rot: 0, mirrored: false }, Frame { x: 200, y: 0, rot: 0, mirrored: false }]);
}

#[test]
fn command_center_outside_a_structure_is_rejected() {
    let objects = sample_objects();
    let blueprints = vec![design("bad", vec![Placement::object("command", Transform2D::identity())])];
    let cat = Catalog { objects: &objects, blueprints: &blueprints };
    let fault = validate_catalog(&cat, &all_shapes()).unwrap_err();
    assert!(matches!(fault, Fault::NotInside { .. }), "interior-only object must be inside a holder");
}

#[test]
fn blueprints_nest_inside_blueprints() {
    let objects = sample_objects();
    let pod = design(
        "pod",
        vec![Placement::object("hull-1", Transform2D::identity())
            .with_children(vec![Placement::object("turret", Transform2D::identity())])],
    );
    let wing = design(
        "wing",
        vec![Placement::blueprint("pod", at(-3000, 0)), Placement::blueprint("pod", at(3000, 0))],
    );
    let blueprints = vec![pod, wing];
    let cat = Catalog { objects: &objects, blueprints: &blueprints };
    assert!(validate_catalog(&cat, &all_shapes()).is_ok());
    let craft = resolve_blueprint(&cat, "wing", &vec![]).unwrap();
    assert_eq!(craft.parts.len(), 4);
    assert_eq!(craft.weapon_mounts, vec!["blaster", "blaster"], "two turrets mount the blaster");
    let xs: Vec<i64> =
        craft.parts.iter().filter(|p| p.def == "hull-1").map(|p| p.frames.iter().map(|f| f.x).sum()).collect();
    assert_eq!(xs, vec![-3000, 3000]);
}

#[test]
fn parameters_drive_dynamic_customization() {
    let objects = sample_objects();
    let bp = Blueprint {
        id: "strip".into(),
        name: "Armor Strip".into(),
        params: vec![BpParam { name: "span".into(), default: 2_000, min: Some(1_000), max: Some(20_000) }],
        root: vec![Placement::object("armor-tri", Transform2D::identity()).with_bind("w", "span")],
    };
    let blueprints = vec![bp];
    let cat = Catalog { objects: &objects, blueprints: &blueprints };
    let small = resolve_blueprint(&cat, "strip", &vec![]).unwrap();
    let big = resolve_blueprint(&cat, "strip", &vec![Setting { key: "span".into(), value: 10_000 }]).unwrap();
    assert_eq!(small.parts[0].w, Some(2_000));
    assert_eq!(big.parts[0].w, Some(10_000), "the armor widened with the `span` parameter");
    let capped = resolve_blueprint(&cat, "strip", &vec![Setting { key: "span".into(), value: 99_000 }]).unwrap();
    assert_eq!(capped.parts[0].w, Some(20_000), "a parameter stays within its limits");
}

#[test]
fn repeat_generates_a_row_of_objects() {
    let objects = sample_objects();
    let row = Placement::object("turret", at(-4000, 0)).with_repeat(Repeat { count: 5, dx: 2000, dy: 0, drot: 0 });
    let blueprints = vec![design(
        "battery",
        vec![Placement::object("hull-1", at(0, 0)).with_children(vec![row])],
    )];
    let cat = Catalog { objects: &objects, blueprints: &blueprints };
    let craft = resolve_blueprint(&cat, "battery", &vec![]).unwrap();
    let turrets: Vec<i64> =
        craft.parts.iter().filter(|p| p.def == "turret").map(|p| p.frames.last().unwrap().x).collect();
    assert_eq!(turrets, vec![-4000, -2000, 0, 2000, 4000], "repeat generated a row of 5 turrets");
    assert_eq!(craft.weapon_mounts.len(), 5);
}

#[test]
fn cycle_and_depth_are_guarded() {
    let objects = sample_objects();
    let a = design("a", vec![Placement::blueprint("b", Transform2D::identity())]);
    let b = design("b", vec![Placement::blueprint("a", Transform2D::identity())]);
    let blueprints = vec![a, b];
    let cat = Catalog { objects: &objects, blueprints: &blueprints };
    assert!(validate_catalog(&cat, &all_shapes()).is_err(), "a cycle is caught at validation");
    let fault = resolve_blueprint(&cat, "a", &vec![]).unwrap_err();
    assert!(matches!(fault, Fault::Cycle { .. }), "and at resolution: {fault:?}");

    // A chain of designs that is one too long, and one that just fits.
    let chain: Vec<Blueprint> = (0..MAX_BLUEPRINT_DEPTH + 2)
        .map(|i| {
            let next = format!("d{}", i + 1);
            if i == MAX_BLUEPRINT_DEPTH + 1 {
                design(&format!("d{i}"), vec![Placement::object("hull-1", Transform2D::identity())])
            } else {
                design(&format!("d{i}"), vec![Placement::blueprint(&next, Transform2D::identity())])
            }
        })
        .collect();
    let cat = Catalog { objects: &objects, blueprints: &chain };
    assert!(matches!(resolve_blueprint(&cat, "d0", &vec![]), Err(Fault::TooDeep { .. })));
    assert_eq!(resolve_blueprint(&cat, "d1", &vec![]).unwrap().parts.len(), 1);
}

#[test]
fn aggregate_sums_mass_thrust_power_and_storage() {
    let objects = sample_objects();
    let blueprints = vec![design(
        "ship",
        vec![Placement::object("hull-1", Transform2D::identity()).with_children(vec![
            Placement::object("thruster", at(0, -1000)),
            Placement::object("command", at(0, 0)),
            Placement::object("tank", at(500, 500)),
        ])],
    )];
    let cat = Catalog { objects: &objects, blueprints: &blueprints };
    let craft = resolve_blueprint(&cat, "ship", &vec![]).unwrap();
    assert_eq!(craft.total_thrust, 50_000, "one thruster -> 50 thrust");
    assert_eq!(craft.net_power, 5_000, "command +10, thruster -5 => +5 net");
    assert_eq!(craft.storage_capacity, 500_000, "the tank contributes 500 capacity");
    let mass: i64 = craft.parts.iter().map(|p| p.mass).sum();
    assert!(mass > 2_000, "hull + parts mass");
}

#[test]
fn unknown_names_are_faults() {
    let objects = sample_objects();
    let blueprints = vec![
        design("x", vec![Placement::object("nothing", Transform2D::identity())]),
        design("y", vec![Placement::blueprint("nowhere", Transform2D::identity())]),
    ];
    let cat = Catalog { objects: &objects, blueprints: &blueprints };
    assert_eq!(resolve_blueprint(&cat, "x", &vec![]).unwrap_err(), Fault::UnknownObject { def: "nothing".into() });
    assert_eq!(resolve_blueprint(&cat, "y", &vec![]).unwrap_err(), Fault::UnknownBlueprint { id: "nowhere".into() });
    assert!(cat.object("hull-1").is_some() && cat.object("nothing").is_none());
    assert!(cat.blueprint("x").is_some() && cat.blueprint("z").is_none());
}

#[test]
fn bad_shapes_and_crowded_parts_are_faults() {
    let objects = sample_objects();
    let none: Vec<Blueprint> = vec![];
    let mut shapes = all_shapes();
    shapes[3] = false;
    let cat = Catalog { objects: &objects, blueprints: &none };
    assert_eq!(validate_catalog(&cat, &shapes).unwrap_err(), Fault::BadShape { def: "turret".into() });
    assert!(validate_catalog(&cat, &vec![true; 2]).is_err(), "a shape that does not exist is bad");

    let stuffed = vec![design(
        "s",
        vec![Placement::object("turret", Transform2D::identity())
            .with_children(vec![Placement::object("hull-1", Transform2D::identity())])],
    )];
    let cat = Catalog { objects: &objects, blueprints: &stuffed };
    assert!(matches!(validate_catalog(&cat, &all_shapes()), Err(Fault::HoldsNothing { .. })));

    let shaped = vec![design("t", vec![Placement::object("hull-1", Transform2D::identity()).with_shape(77)])];
    let cat = Catalog { objects: &objects, blueprints: &shaped };
    assert!(matches!(validate_catalog(&cat, &all_shapes()), Err(Fault::BadPlacedShape { .. })));
}

#[test]
fn nested_designs_take_arguments() {
    let objects = sample_objects();
    let plate = Blueprint {
        id: "plate".into(),
        name: "Plate".into(),
        params: vec![BpParam { name: "s".into(), default: 1, min: None, max: None }],
        root: vec![Placement::object("hull-1", Transform2D::identity()).with_bind("w", "s").with_param("h", 7)],
    };
    let outer = Blueprint {
        id: "outer".into(),
        name: "Outer".into(),
        params: vec![BpParam { name: "k".into(), default: 40, min: None, max: None }],
        root: vec![
            Placement::blueprint("plate", at(0, 0)).with_arg("s", 30),
            Placement::blueprint("plate", at(0, 0)).with_arg("s", 30).with_arg_bind("s", "k"),
            Placement::object("hull-1", at(0, 0)).with_arg("s", 5).with_arg_bind("s", "k"),
        ],
    };
    let blueprints = vec![plate, outer];
    let cat = Catalog { objects: &objects, blueprints: &blueprints };
    let craft = resolve_blueprint(&cat, "outer", &vec![]).unwrap();
    let ws: Vec<Option<i64>> = craft.parts.iter().map(|p| p.w).collect();
    assert_eq!(ws, vec![Some(30), Some(40), None]);
    assert_eq!(craft.parts[0].h, Some(7));
}

#[test]
fn the_last_binding_of_a_name_alone_decides() {
    let objects = sample_objects();
    let plate = Blueprint {
        id: "plate".into(),
        name: "Plate".into(),
        params: vec![BpParam { name: "s".into(), default: 1, min: None, max: None }],
        root: vec![Placement::object("hull-1", Transform2D::identity()).with_bind("w", "s")],
    };
    let outer = Blueprint {
        id: "outer".into(),
        name: "Outer".into(),
        params: vec![BpParam { name: "k".into(), default: 40, min: None, max: None }],
        root: vec![
            Placement::object("hull-1", at(0, 0)).with_bind("w", "k").with_bind("w", "nowhere"),
            Placement::object("hull-1", at(0, 0)).with_param("w", 9).with_bind("w", "k").with_bind("w", "nowhere"),
            Placement::object("hull-1", at(0, 0)).with_bind("w", "nowhere").with_bind("w", "k"),
            Placement::object("hull-1", at(0, 0)).with_param("w", 9).with_param("w", 11),
            Placement::blueprint("plate", at(0, 0)).with_arg_bind("s", "k").with_arg_bind("s", "nowhere"),
            Placement::blueprint("plate", at(0, 0))
                .with_arg("s", 30)
                .with_arg_bind("s", "k")
                .with_arg_bind("s", "nowhere"),
            Placement::blueprint("plate", at(0, 0)).with_arg_bind("s", "nowhere").with_arg_bind("s", "k"),
            Placement::blueprint("plate", at(0, 0)).with_arg("s", 30).with_arg("s", 31),
        ],
    };
    let blueprints = vec![plate, outer];
    let cat = Catalog { objects: &objects, blueprints: &blueprints };
    let craft = resolve_blueprint(&cat, "outer", &vec![]).unwrap();
    let ws: Vec<Option<i64>> = craft.parts.iter().map(|p| p.w).collect();
    assert_eq!(
        ws,
        vec![None, Some(9), Some(40), Some(11), Some(1), Some(30), Some(40), Some(31)]
    );
}

#[test]
fn placing_parts_lowers_to_a_blueprint_with_world_transforms() {
    let mut e = ShipEditor::new("Test");
    e.place("struct-block", 0, 0, 0);
    e.place("thruster", 0, -1, 2);
    let bp = e.to_blueprint();
    assert_eq!(bp.root.len(), 2);
    let thr = &bp.root[1];
    assert_eq!(thr.at.y, -GRID, "y placed at cell*grid");
    assert_eq!(thr.at.rot, 3_141_593, "rot is two quarter-turns");
    assert_eq!(thr.kind, PlacementKind::Object { def: "thruster".into() });
    e.grid = -3;
    assert_eq!(e.to_blueprint().root[1].at.y, -GRID, "a grid that makes no sense counts as the usual one");
}

#[test]
fn remove_and_rotate_target_the_top_part_of_a_cell() {
    let mut e = ShipEditor::new("T");
    e.place("struct-block", 1, 1, 0);
    e.place("gun", 1, 1, 0);
    assert_eq!(e.parts_at(1, 1).len(), 2);
    assert!(e.rotate_at(1, 1), "rotates the gun (topmost)");
    assert_eq!(e.parts.last().unwrap().rot, 1);
    assert!(e.remove_at(1, 1), "removes the gun");
    assert_eq!(e.len(), 1);
    assert_eq!(e.parts[0].def, "struct-block");
    assert!(!e.remove_at(5, 5), "nothing at an empty cell");
    assert!(!e.rotate_at(5, 5));
}

#[test]
fn parts_are_capped() {
    let mut e = ShipEditor::new("Big");
    for i in 0..(MAX_PARTS as i32 + 50) {
        e.place("struct-block", i, 0, 0);
    }
    assert_eq!(e.len(), MAX_PARTS, "placement is capped at MAX_PARTS");
}

#[test]
fn slug_is_safe() {
    assert_eq!(ShipEditor::new("My Cool Ship!!").slug(), "my-cool-ship");
    assert_eq!(ShipEditor::new("").slug(), "design");
    assert_eq!(ShipEditor::new("--A  b_9--").slug(), "a-b-9");
    assert_eq!(ShipEditor::new("!!").slug(), "design");
}

#[test]
fn a_part_turns_by_quarters() {
    let mut p = PlacedPart::new("gun", 1, 2);
    assert_eq!(p.angle(), 0);
    p.rot = 5;
    assert_eq!(p.angle(), 1_570_796);
    p.rot = 3;
    assert_eq!(p.angle(), 4_712_389);
    assert!(ShipEditor::default().is_empty());
    assert_eq!(ShipEditor::default().name, "Untitled");
}

#[test]
fn a_preview_needs_known_parts_alone() {
    let objects: Vec<ObjectDef> = ["struct-block", "command-center", "reactor", "thruster", "gun", "armor-wedge"]
        .iter()
        .map(|id| ObjectDef::new(id, id, ObjectCategory::Structure, 0).stats(ObjectStats {
            thrust: if *id == "thruster" { 40 } else { 0 },
            ..Default::default()
        }))
        .collect();
    let none: Vec<Blueprint> = vec![];
    let cat = Catalog { objects: &objects, blueprints: &none };
    let e = ShipEditor::starter();
    let craft = e.preview(&cat).unwrap();
    assert_eq!(craft.parts.len(), e.len());
    assert_eq!(craft.total_thrust, 80, "twin engines");
    let mut odd = ShipEditor::starter();
    odd.place("warp-core", 9, 9, 0);
    assert_eq!(odd.preview(&cat).unwrap_err(), Fault::UnknownObject { def: "warp-core".into() });
    let bp = e.to_blueprint();
    assert_eq!(resolve_design(&cat, &bp, &vec![]).unwrap().parts.len(), 8);
}

#[test]
fn apply_takes_stronger_and_longer() {
    let mut s = StatusStack::new();
    assert!(s.apply(StatusKind::Slow, 100, 300, "a"));
    assert!(!s.apply(StatusKind::Slow, 50, 100, "b"));
    assert_eq!(s.magnitude(StatusKind::Slow), 300);
    assert_eq!(s.get(StatusKind::Slow).unwrap().until, 100);
    assert!(s.apply(StatusKind::Slow, 200, 600, "c"));
    assert_eq!(s.magnitude(StatusKind::Slow), 600);
    assert_eq!(s.get(StatusKind::Slow).unwrap().until, 200);
    assert_eq!(s.get(StatusKind::Slow).unwrap().source, "c");
    assert_eq!(s.effects.iter().filter(|e| e.kind == StatusKind::Slow).count(), 1);
}

#[test]
fn expiry_is_by_tick() {
    let mut s = StatusStack::new();
    s.apply(StatusKind::Burn, 10, 5000, "x");
    s.expire(9);
    assert!(s.has(StatusKind::Burn));
    s.expire(10);
    assert!(!s.has(StatusKind::Burn), "expired exactly at `until`");
    assert!(s.is_empty());
}

#[test]
fn emp_gates_thrust_fire_and_shield() {
    let mut s = StatusStack::new();
    assert!(s.can_thrust() && s.can_fire() && s.shield_regenerates());
    s.apply(StatusKind::Emp, 50, 1000, "x");
    assert!(!s.can_thrust());
    assert!(!s.can_fire());
    assert!(!s.shield_regenerates());
}

#[test]
fn gameplay_multipliers_are_sane() {
    let mut s = StatusStack::new();
    s.apply(StatusKind::Slow, 50, 500, "x");
    assert_eq!(s.mobility_mult(), 500);
    s.apply(StatusKind::Stasis, 50, 1000, "x");
    assert_eq!(s.stasis_retain(), 0, "full stasis pins velocity");
    s.apply(StatusKind::Overcharge, 50, 400, "self");
    assert_eq!(s.overcharge_mult(), 1400);
}

#[test]
fn hash_is_order_independent_and_reacts_to_change() {
    let mut a = StatusStack::new();
    let mut b = StatusStack::new();
    a.apply(StatusKind::Burn, 30, 4000, "s");
    a.apply(StatusKind::Slow, 40, 300, "s");
    b.apply(StatusKind::Slow, 40, 300, "s");
    b.apply(StatusKind::Burn, 30, 4000, "s");
    assert_eq!(a.hash(), b.hash(), "same effects, applied in any order, hash the same");
    b.apply(StatusKind::Emp, 60, 1000, "s");
    assert_ne!(a.hash(), b.hash(), "an extra effect changes the digest");
}

#[test]
fn a_hit_that_is_repeated_changes_nothing() {
    let mut s = StatusStack::new();
    assert!(s.apply(StatusKind::Burn, 30, 4000, "s"));
    assert!(!s.apply(StatusKind::Burn, 30, 4000, "s"));
    assert!(StatusKind::Overcharge.is_buff() && !StatusKind::Emp.is_buff());
    let codes: std::collections::BTreeSet<u8> =
        [StatusKind::Emp, StatusKind::Burn, StatusKind::Slow, StatusKind::Stasis, StatusKind::Overcharge]
            .iter()
            .map(|k| k.code())
            .collect();
    assert_eq!(codes.len(), 5);
}

#[test]
fn home_sector_is_calm() {
    let h = Hazards::for_sector(SectorId::new(0, 0));
    assert!(h.is_empty(), "the spawn sector has no hazards");
    assert_eq!(h, Hazards::empty());
}

#[test]
fn field_is_deterministic_per_sector() {
    for (sx, sy) in [(1, 0), (-3, 2), (7, 7), (0, 5)] {
        let a = Hazards::for_sector(SectorId::new(sx, sy));
        let b = Hazards::for_sector(SectorId::new(sx, sy));
        assert_eq!(a, b, "same sector -> identical hazard field (replica-safe)");
    }
}

#[test]
fn wells_stay_inside_and_off_the_edges() {
    let mut wells = 0;
    let mut nebulae = 0;
    for sx in -6..6 {
        for sy in -6..6 {
            let h = Hazards::for_sector(SectorId::new(sx, sy));
            for w in &h.wells {
                assert!(w.x > 100_00 && w.x < (SECTOR_SIZE - 100) * 100, "well x inset");
                assert!(w.y > 100_00 && w.y < (SECTOR_SIZE - 100) * 100, "well y inset");
                assert!(w.core_radius < w.radius);
                wells += 1;
            }
            for n in &h.nebulae {
                assert!(n.contains(n.x, n.y));
                nebulae += 1;
            }
        }
    }
    assert!(wells > 0 && nebulae > 0);
}

#[test]
fn black_hole_core_is_lethal_but_a_planet_core_is_not() {
    let hole = Well { x: 0, y: 0, radius: 800_00, core_radius: 50_00, mass: 40, kind: WellKind::BlackHole };
    assert!(hole.lethal(10_00, 10_00), "inside the event horizon is lethal");
    assert!(!hole.lethal(400_00, 0), "outside the horizon is survivable");
    let planet = Well { x: 0, y: 0, radius: 800_00, core_radius: 50_00, mass: 40, kind: WellKind::Planet };
    assert!(!planet.lethal(10_00, 10_00), "a planet never instakills");
    assert!(WellKind::BlackHole.core_is_lethal() && !WellKind::Planet.core_is_lethal());
    let h = Hazards { wells: vec![hole], nebulae: vec![] };
    assert!(h.lethal_at(0, 0) && !h.lethal_at(400_00, 0));
}

#[test]
fn nebula_drags_and_hides_inside_only() {
    let h = Hazards { wells: vec![], nebulae: vec![Nebula { x: 500_00, y: 500_00, radius: 200_00, drag: 50 }] };
    assert!(h.drag_at(500_00, 500_00) > 0 && h.hidden_at(510_00, 500_00));
    assert_eq!(h.drag_at(2000_00, 2000_00), 0);
    assert!(!h.hidden_at(2000_00, 2000_00));
    assert_eq!(NEBULA_DRAG, 35);
}

fn slot(tag: &str, x: i32, y: i32, mirror: bool, step: i32) -> Slot {
    Slot { tag: tag.into(), at: at(x, y), mirror, step }
}

fn module(id: &str, blueprint: &str, slots: Vec<Slot>) -> ModuleDef {
    ModuleDef { id: id.into(), blueprint: blueprint.into(), tags: vec![id.into()], slots }
}

fn modules() -> Vec<ModuleDef> {
    vec![
        module(
            "core",
            "bp-core",
            vec![
                slot("wing", -2000, 0, true, 0),
                slot("nose", 0, 3000, false, 0),
                slot("engine", 0, -3000, false, 0),
            ],
        ),
        module(
            "wing",
            "bp-wing",
            vec![slot("engine", -1000, -1000, false, 0), slot("weapon", -1000, 1000, false, 1000)],
        ),
        module("engine", "bp-engine", vec![]),
        module("weapon", "turret-pod", vec![]),
        module("nose", "bp-nose", vec![]),
    ]
}

fn rule(tag: &str, min: u32, max: u32) -> SlotRule {
    SlotRule { slot_tag: tag.into(), options: vec![tag.into()], min, max, chance: CERTAIN }
}

fn grammar() -> ShipGrammar {
    ShipGrammar {
        id: "warship".into(),
        name: "Warship".into(),
        root_tag: "core".into(),
        rules: vec![rule("wing", 1, 1), rule("nose", 1, 1), rule("engine", 1, 2), rule("weapon", 1, 2)],
        max_depth: 4,
    }
}

#[test]
fn generation_is_deterministic_in_the_seed() {
    let (m, g) = (modules(), grammar());
    let a = generate_ship(&m, &g, 12345).unwrap();
    let b = generate_ship(&m, &g, 12345).unwrap();
    assert_eq!(a, b, "same seed -> identical ship (replica-safe)");
    let c = generate_ship(&m, &g, 999).unwrap();
    assert_ne!(a, c, "a different seed makes a different ship");
    assert_eq!(a.id, "gen-warship-3039");
    assert_eq!(a.name, "Warship #3039");
    assert_eq!(a.seed, 12345);
}

#[test]
fn a_ship_grows_recursively_from_the_core() {
    let (m, g) = (modules(), grammar());
    let ship = generate_ship(&m, &g, 7).unwrap();
    assert!(ship.module_count >= 5, "ship grew several modules, got {}", ship.module_count);
    assert_eq!(ship.modules.len(), ship.module_count as usize);
    assert_eq!(ship.modules[0], GrownModule { blueprint: "bp-core".into(), steps: vec![] });
    let wings: Vec<bool> =
        ship.modules.iter().filter(|m| m.blueprint == "bp-wing").map(|m| m.steps[0].mirrored).collect();
    assert!(wings.contains(&true) && wings.contains(&false), "wings are mirrored: {wings:?}");
}

fn module_designs() -> Vec<Blueprint> {
    ["bp-core", "bp-wing", "bp-engine", "turret-pod", "bp-nose"]
        .iter()
        .map(|id| design(id, vec![Placement::object("turret", at(5, 6))]))
        .collect()
}

#[test]
fn a_generated_ship_resolves_into_a_craft() {
    let objects = sample_objects();
    let blueprints = module_designs();
    let cat = Catalog { objects: &objects, blueprints: &blueprints };
    let ship = generate_ship(&modules(), &grammar(), 7).unwrap();
    let craft = resolve_ship(&cat, &ship).unwrap();
    assert_eq!(craft.parts.len(), ship.modules.len(), "each module has one part");
    assert_eq!(craft.weapon_mounts.len(), ship.modules.len());
    let own = Frame { x: 5, y: 6, rot: 0, mirrored: false };
    for (part, m) in craft.parts.iter().zip(&ship.modules) {
        let mut chain = m.steps.clone();
        chain.push(own);
        assert_eq!(part.frames, chain);
    }
    let wings: Vec<&GrownModule> = ship.modules.iter().filter(|m| m.blueprint == "bp-wing").collect();
    assert_eq!(wings[0].steps, vec![Frame { x: -2000, y: 0, rot: 0, mirrored: false }]);
    assert_eq!(wings[1].steps, vec![Frame { x: -2000, y: 0, rot: 0, mirrored: true }]);
}

#[test]
fn a_ship_with_a_faulty_module_does_not_resolve() {
    let objects = sample_objects();
    let ship = generate_ship(&modules(), &grammar(), 7).unwrap();
    let no_wing: Vec<Blueprint> = module_designs().into_iter().filter(|b| b.id != "bp-wing").collect();
    let cat = Catalog { objects: &objects, blueprints: &no_wing };
    assert_eq!(resolve_ship(&cat, &ship), Err(Fault::UnknownBlueprint { id: "bp-wing".into() }));

    let mut inward = module_designs();
    inward[0] = design("bp-core", vec![Placement::blueprint(&ship.id, at(0, 0))]);
    let cat = Catalog { objects: &objects, blueprints: &inward };
    assert_eq!(
        resolve_ship(&cat, &ship),
        Err(Fault::Cycle { path: vec![ship.id.clone(), "bp-core".into()], id: ship.id.clone() })
    );

    // Sixteen designs may be nested in a ship.
    let nest = |levels: usize| {
        let mut all = vec![design("d1", vec![Placement::object("turret", at(0, 0))])];
        for k in 2..=levels {
            all.push(design(&format!("d{k}"), vec![Placement::blueprint(&format!("d{}", k - 1), at(0, 0))]));
        }
        all
    };
    let lone = GeneratedShip {
        id: "lone".into(),
        name: "Lone".into(),
        modules: vec![GrownModule { blueprint: "d16".into(), steps: vec![] }],
        seed: 0,
        module_count: 1,
    };
    let deep = nest(16);
    let cat = Catalog { objects: &objects, blueprints: &deep };
    assert_eq!(resolve_ship(&cat, &lone).unwrap().parts.len(), 1);
    let mut deeper = nest(17);
    deeper.retain(|b| b.id != "d16");
    deeper.push(design("d16", vec![Placement::blueprint("e", at(0, 0))]));
    deeper.push(design("e", vec![Placement::blueprint("d15", at(0, 0))]));
    let cat = Catalog { objects: &objects, blueprints: &deeper };
    assert_eq!(resolve_ship(&cat, &lone), Err(Fault::TooDeep { id: "d1".into() }));
}

#[test]
fn module_count_is_capped() {
    let mut m = modules();
    m[1].slots.push(slot("wing", -1000, 0, true, 0));
    let mut g = grammar();
    g.max_depth = 20;
    for r in &mut g.rules {
        r.max = 3;
    }
    let ship = generate_ship(&m, &g, 42).unwrap();
    assert!(ship.module_count <= MAX_MODULES, "capped at {MAX_MODULES}, got {}", ship.module_count);
}

#[test]
fn fleet_generation_makes_varied_designs() {
    let (m, g) = (modules(), grammar());
    let fleet = generate_fleet(&m, &g, 1, 8);
    assert_eq!(fleet.len(), 8);
    let distinct = fleet.iter().map(|s| s.modules.len()).collect::<std::collections::BTreeSet<_>>();
    assert!(distinct.len() > 1, "the fleet has structural variety");
}

#[test]
fn missing_root_module_errors() {
    let m = modules();
    let mut g = grammar();
    g.root_tag = "nonexistent".into();
    let e = generate_ship(&m, &g, 1).unwrap_err();
    assert_eq!(e.root_tag, "nonexistent");
    assert_eq!(e.grammar, "warship");
    assert!(generate_fleet(&m, &g, 1, 3).is_empty());
}

#[test]
fn the_generator_draws_splitmix_numbers() {
    // The state starts at the golden gamma, so the first draw of seed 0 is that of state 2 * gamma.
    let gamma = 0x9e3779b97f4a7c15u64;
    let mut z = gamma.wrapping_add(gamma);
    z = (z ^ (z >> 30)).wrapping_mul(0xbf58476d1ce4e5b9);
    z = (z ^ (z >> 27)).wrapping_mul(0x94d049bb133111eb);
    z ^= z >> 31;
    let mut r = Rng::new(0);
    assert_eq!(r.below(1000), (z % 1000) as usize);
    assert_eq!(r.below(0), 0);
    let mut s = Rng::new(0);
    assert_eq!(s.unit() as u64, z >> 40);
    assert_eq!(s.range_u32(4, 4), 4);
    assert_eq!(Rng::new(0).range_u32(0, u32::MAX) as u64, z % (1u64 << 32));
    assert_eq!(Rng::new(0).range_u32(10, 16) as u64, 10 + z % 7);
}

#[test]
fn faults_are_told_in_words() {
    let cycle = Fault::Cycle { path: vec!["a".into(), "b".into()], id: "a".into() };
    assert_eq!(cycle.message(), "blueprint cycle detected: a -> b -> a");
    assert_eq!(cycle.check_message(), "blueprint cycle: a -> b -> a");
    let deep = Fault::TooDeep { id: "x".into() };
    assert_eq!(deep.message(), "blueprint nesting exceeded 16 (cycle or too deep) at x");
    assert_eq!(deep.check_message(), "blueprint too deep at x");
    assert_eq!(Fault::UnknownObject { def: "o".into() }.message(), "unknown object o");
    assert_eq!(Fault::UnknownBlueprint { id: "b".into() }.message(), "unknown blueprint b");
    let loose = Fault::NotInside { def: "bridge".into(), category: ObjectCategory::CommandCenter };
    assert_eq!(loose.check_message(), "bridge (CommandCenter) must be placed inside a structure/container");
    let solid = Fault::HoldsNothing { def: "gun".into(), category: ObjectCategory::Gun };
    assert_eq!(solid.check_message(), "gun (Gun) cannot hold child objects");
}

#[test]
fn a_grammar_without_a_core_is_told_in_words() {
    let none = NoRoot { grammar: "pirate".into(), root_tag: "core".into() };
    assert_eq!(none.message(), "grammar pirate has no module tagged 'core' to root the ship");
}

#[test]
fn hits_of_one_strength_settle_alike_in_any_order() {
    let hits = [(40u64, "bee"), (60, ""), (50, "ace")];
    let mut ahead = StatusStack::new();
    let mut back = StatusStack::new();
    for (until, source) in hits {
        ahead.apply(StatusKind::Burn, until, 2000, source);
    }
    for (until, source) in hits.into_iter().rev() {
        back.apply(StatusKind::Burn, until, 2000, source);
    }
    assert_eq!(ahead.effects, back.effects);
    assert_eq!((ahead.effects[0].until, ahead.effects[0].source.as_str()), (60, "bee"));
    assert!(!ahead.apply(StatusKind::Burn, 60, 2000, "ace"), "nothing is left to change");
    assert!(ahead.apply(StatusKind::Burn, 10, 2000, "cee"), "the credit has moved");
}
