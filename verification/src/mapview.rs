//! The galaxy map: what the hosts report of their cells, folded into one picture that can be looked at
//! from ship scale to galaxy scale.
//!
//! No node holds the whole galaxy, so a view takes in only what lies within its reach, and of that only
//! so many cells; what it leaves out it counts. Everything in a view is measured from its centre, so it is
//! as precise far out as at the origin. Lengths are in steps, eighths of a world unit.
use vstd::prelude::*;
use vstd::string::*;

use crate::aabb::{
    all_places, fine, infos_of, planned, Aabb, AabbNodeInfo, AabbTree, DEFAULT_LEAF_CAP, DEFAULT_MAX_DEPTH,
};
use crate::coords::{global_x, global_y, Anchor, GalaxyPos, SPAN8};
use crate::order::SortedMap;
use crate::sim::{Ship, Sim};
use crate::sort::{lemma_stably_sorted, sort_stably, stably_sorted, Ranked};

verus! {

/// Where the hosts publish their reports.
pub const MAP_TOPIC: &'static str = "spacegame/map";

/// The square of half of a cell's diagonal: twice that of half its side. Half of the diagonal itself is
/// no whole number of steps.
pub const HALF_DIAGONAL_SQUARED: i128 = 2_592_000_000;

/// Half of a cell's diagonal, rounded down to a step.
const HALF_DIAGONAL_FLOOR: i128 = 50_911;

/// Half the side of the box of a ship on the map, in world units.
pub const DOT_R: i32 = 18;

/// What a dot on the map stands for.
#[derive(Debug, Clone, Copy, PartialEq, Eq, Structural)]
pub enum DotKind {
    Player,
    Npc,
    Rock,
}

/// An entity on the map.
#[derive(Debug, PartialEq)]
pub struct EntityDot {
    pub id: String,
    pub pos: GalaxyPos,
    pub kind: DotKind,
}

/// What a host reports of a cell that it runs. The boxes of the nodes are in 2^24ths of a world unit from
/// the corner of the cell.
#[derive(Debug, PartialEq)]
pub struct CellReport {
    pub anchor: Anchor,
    pub host: String,
    pub players: u32,
    pub entities: u32,
    pub tick_us: u32,
    pub aabb_nodes: Vec<AabbNodeInfo>,
    pub dots: Vec<EntityDot>,
}

/// The dot of a ship.
pub open spec fn is_dot_of(d: EntityDot, sim: Sim, id: String, ship: Ship) -> bool {
    &&& d.id == id
    &&& d.pos.anchor.ax == sim.sector.sx
    &&& d.pos.anchor.ay == sim.sector.sy
    &&& d.pos.x == ship.body.x * 8
    &&& d.pos.y == ship.body.y * 8
    &&& d.kind == (if ship.owner is None {
        DotKind::Player
    } else {
        DotKind::Npc
    })
}

/// The box of a ship on the map.
pub open spec fn dot_box(ship: Ship) -> Aabb {
    Aabb {
        min_x: (ship.body.x - DOT_R) as i32,
        min_y: (ship.body.y - DOT_R) as i32,
        max_x: (ship.body.x + DOT_R) as i32,
        max_y: (ship.body.y + DOT_R) as i32,
    }
}

/// The nodes of the tree over the boxes of the ships.
pub open spec fn nodes_over(sim: Sim) -> Seq<AabbNodeInfo> {
    let bounds = Aabb { min_x: 0, min_y: 0, max_x: 9000, max_y: 9000 };
    let boxes = sim.ships.value_order().map_values(|s: Ship| dot_box(s));
    infos_of(
        planned(
            fine(bounds),
            all_places(boxes.len()),
            boxes,
            DEFAULT_MAX_DEPTH as nat,
            DEFAULT_LEAF_CAP as nat,
        ),
        fine(bounds),
        0,
    )
}

impl CellReport {
    /// What the host of a sector reports: the load, a dot for each ship, and the nodes of the tree
    /// over the ships.
    pub fn from_sim(sim: &Sim, host: &str, tick_us: u32) -> (r: Self)
        requires
            sim.wf(),
            sim.ships.key_order().len() <= u32::MAX,
            forall|i: int|
                0 <= i < sim.ships.value_order().len() ==> {
                    let b = (#[trigger] sim.ships.value_order()[i]).body;
                    &&& i32::MIN + DOT_R <= b.x <= i32::MAX - DOT_R
                    &&& i32::MIN + DOT_R <= b.y <= i32::MAX - DOT_R
                },
        ensures
            r.anchor.ax == sim.sector.sx,
            r.anchor.ay == sim.sector.sy,
            r.host@ == host@,
            r.players == sim.ships.value_order().filter(|s: Ship| s.owner is None).len(),
            r.entities == sim.ships.key_order().len(),
            r.tick_us == tick_us,
            r.aabb_nodes@ == nodes_over(*sim),
            r.dots@.len() == sim.ships.key_order().len(),
            forall|i: int|
                #![trigger r.dots@[i]]
                0 <= i < r.dots@.len() ==> is_dot_of(
                    r.dots@[i],
                    *sim,
                    sim.ships.key_order()[i],
                    sim.ships.value_order()[i],
                ),
    {
        let anchor = Anchor::from_sector(sim.sector);
        let ids = sim.ships.keys();
        let ships = sim.ships.values();
        let mut dots: Vec<EntityDot> = Vec::new();
        let mut items: Vec<(Aabb, usize)> = Vec::new();
        let mut i: usize = 0;
        proof {
            sim.ships.lemma_orders();
        }
        while i < ids.len()
            invariant
                i <= ids@.len() == ships@.len(),
                ids@ == sim.ships.key_order(),
                ships@ == sim.ships.value_order(),
                anchor.ax == sim.sector.sx,
                anchor.ay == sim.sector.sy,
                forall|j: int|
                    0 <= j < ships@.len() ==> {
                        let b = (#[trigger] ships@[j]).body;
                        &&& i32::MIN + DOT_R <= b.x <= i32::MAX - DOT_R
                        &&& i32::MIN + DOT_R <= b.y <= i32::MAX - DOT_R
                    },
                dots@.len() == i,
                items@.len() == i,
                forall|j: int|
                    #![trigger dots@[j]]
                    0 <= j < i ==> is_dot_of(dots@[j], *sim, ids@[j], ships@[j]),
                forall|j: int|
                    0 <= j < i ==> (#[trigger] items@[j]).0 == dot_box(ships@[j])
                        && items@[j].0.wf(),
            decreases ids@.len() - i,
        {
            let s = &ships[i];
            let (x, y): (i32, i32) = (s.body.x, s.body.y);
            let kind: DotKind = if s.owner.is_none() {
                DotKind::Player
            } else {
                DotKind::Npc
            };
            dots.push(
                EntityDot {
                    id: ids[i].clone(),
                    pos: GalaxyPos::new(anchor, x as i64 * 8, y as i64 * 8),
                    kind,
                },
            );
            items.push((Aabb::around(x, y, DOT_R), i));
            i = i + 1;
        }
        let bounds = Aabb::new(0, 0, 9000, 9000);
        let ghost given = items@;
        let tree: AabbTree<usize> = AabbTree::build(bounds, items);
        proof {
            assert(tree.boxes@ =~= ships@.map_values(|s: Ship| dot_box(s)));
            crate::aabb::lemma_item_count(tree);
        }
        let aabb_nodes = tree.node_boxes();
        CellReport {
            anchor,
            host: host.to_string(),
            players: count_players(sim),
            entities: ids.len() as u32,
            tick_us,
            aabb_nodes,
            dots,
        }
    }
}

fn count_players(sim: &Sim) -> (n: u32)
    requires
        sim.wf(),
        sim.ships.value_order().len() <= u32::MAX,
    ensures
        n == sim.ships.value_order().filter(|s: Ship| s.owner is None).len(),
{
    proof {
        sim.ships.value_order().lemma_filter_len(|s: Ship| s.owner is None);
    }
    sim.player_count() as u32
}

/// What a host reports of all its cells.
#[derive(Debug, PartialEq)]
pub struct HostReport {
    pub cells: Vec<CellReport>,
}

/// How closely a view looks.
#[derive(Debug, Clone, Copy, PartialEq, Eq, Structural)]
pub enum ViewScale {
    /// Every dot and every node.
    Ship,
    /// Dots, but no nodes.
    System,
    /// Cells alone.
    Galaxy,
}

pub open spec fn scale_for(reach: int) -> ViewScale {
    if reach <= 3 * SPAN8 {
        ViewScale::Ship
    } else if reach <= 80 * SPAN8 {
        ViewScale::System
    } else {
        ViewScale::Galaxy
    }
}

impl ViewScale {
    /// The scale of a view that reaches so many steps: up to three cells, up to eighty, or more.
    pub fn for_reach(reach: i64) -> (s: ViewScale)
        ensures
            s == scale_for(reach as int),
    {
        if reach <= 3 * SPAN8 {
            ViewScale::Ship
        } else if reach <= 80 * SPAN8 {
            ViewScale::System
        } else {
            ViewScale::Galaxy
        }
    }
}

/// What is asked of the map: a centre, how far out to look in steps, and the most cells to return.
#[derive(Debug, Clone, Copy, PartialEq, Eq, Structural)]
pub struct ViewQuery {
    pub center: GalaxyPos,
    pub reach: i64,
    pub max_cells: usize,
}

impl ViewQuery {
    pub fn new(center: GalaxyPos, reach: i64, max_cells: usize) -> (q: Self)
        ensures
            q == (ViewQuery { center, reach, max_cells }),
    {
        ViewQuery { center, reach, max_cells }
    }
}

/// A step in the parts that the nodes of a tree are measured in, 2^24ths of a world unit.
pub const FINE_STEP: i128 = 0x20_0000;

/// A box measured from the centre of a view, in 2^24ths of a world unit.
#[derive(Debug, Clone, Copy, PartialEq, Eq, Structural)]
pub struct RelBox {
    pub min_x: i128,
    pub min_y: i128,
    pub max_x: i128,
    pub max_y: i128,
    pub depth: u32,
    pub leaf: bool,
}

/// A dot measured from the centre of a view, in steps.
#[derive(Debug, PartialEq)]
pub struct RelDot {
    pub id: String,
    pub x: i128,
    pub y: i128,
    pub kind: DotKind,
}

/// A cell in a view.
#[derive(Debug, PartialEq)]
pub struct RenderedCell {
    pub anchor: Anchor,
    pub host: String,
    pub players: u32,
    pub entities: u32,
    pub tick_us: u32,
    pub rect: RelBox,
    pub aabb_nodes: Vec<RelBox>,
    pub dots: Vec<RelDot>,
    /// The square of the distance from the centre of the view to the middle of the cell.
    pub dist2: i128,
}

/// A view of the map.
#[derive(Debug)]
pub struct GalaxyView {
    pub center: GalaxyPos,
    pub reach: i64,
    pub scale: ViewScale,
    pub cells: Vec<RenderedCell>,
    /// How many cells the view holds.
    pub fetched: usize,
    /// How many cells were within reach but did not fit.
    pub dropped: usize,
    pub total_players: u32,
}

/// The way from the centre of a view to the middle of a cell.
pub open spec fn way_x(a: Anchor, c: GalaxyPos) -> int {
    a.ax * 72_000 + 36_000 - global_x(c)
}

pub open spec fn way_y(a: Anchor, c: GalaxyPos) -> int {
    a.ay * 72_000 + 36_000 - global_y(c)
}

/// The square of the distance from the centre of a view to the middle of a cell.
pub open spec fn dist2_of(a: Anchor, c: GalaxyPos) -> int {
    way_x(a, c) * way_x(a, c) + way_y(a, c) * way_y(a, c)
}

/// A length whose square is `d2` is no longer than `r` and half of a cell's diagonal, told by squares
/// alone. With `h` for half of the diagonal, `d <= r + h` holds where `r + h` is not negative and
/// `d2 - r * r - h * h <= 2 * r * h`.
pub open spec fn within(d2: int, r: int) -> bool {
    let over = d2 - r * r - HALF_DIAGONAL_SQUARED;
    if r >= 0 {
        over <= 0 || over * over <= 4 * (r * r) * HALF_DIAGONAL_SQUARED
    } else {
        r * r <= HALF_DIAGONAL_SQUARED && over <= 0 && 4 * (r * r) * HALF_DIAGONAL_SQUARED <= over
            * over
    }
}

/// Some of the cell may lie within reach: its middle is no further than the reach and half of its
/// diagonal.
pub open spec fn reached(a: Anchor, q: ViewQuery) -> bool {
    within(dist2_of(a, q.center), q.reach as int)
}

/// A cell within reach: where it stands among the known cells, and how far away it is.
#[derive(Debug, Clone, Copy, PartialEq, Eq, Structural)]
pub struct Hit {
    pub dist2: i128,
    pub at: usize,
}

impl Ranked for Hit {
    open spec fn before(&self, other: &Self) -> bool {
        self.dist2 < other.dist2
    }

    fn goes_before(&self, other: &Self) -> (r: bool) {
        self.dist2 < other.dist2
    }

    proof fn before_asymmetric(a: &Self, b: &Self) {
    }

    proof fn before_negatively_transitive(a: &Self, b: &Self, c: &Self) {
    }
}

/// The cells within reach among the first `n`, in the order of their anchors.
pub open spec fn candidates(keys: Seq<Anchor>, q: ViewQuery, n: nat) -> Seq<Hit>
    decreases n,
{
    if n == 0 {
        Seq::empty()
    } else {
        let before = candidates(keys, q, (n - 1) as nat);
        if reached(keys[n - 1], q) {
            before.push(
                Hit { dist2: dist2_of(keys[n - 1], q.center) as i128, at: (n - 1) as usize },
            )
        } else {
            before
        }
    }
}

/// The cells within reach, the nearest first; equally near ones by their anchors.
pub open spec fn hits_of(keys: Seq<Anchor>, q: ViewQuery) -> Seq<Hit> {
    stably_sorted(candidates(keys, q, keys.len()))
}

pub open spec fn fetched_of(keys: Seq<Anchor>, q: ViewQuery) -> nat {
    if hits_of(keys, q).len() <= q.max_cells {
        hits_of(keys, q).len()
    } else {
        q.max_cells as nat
    }
}

/// The players of the first `n` of some cells.
pub open spec fn players_of(hits: Seq<Hit>, reports: Seq<CellReport>, n: nat) -> nat
    decreases n,
{
    if n == 0 {
        0
    } else {
        players_of(hits, reports, (n - 1) as nat) + reports[hits[n - 1].at as int].players as nat
    }
}

/// A box of a cell, given in 2^24ths of a unit from its corner, as a view shows it.
pub open spec fn is_rel_box(
    b: RelBox,
    a: Anchor,
    c: GalaxyPos,
    min_x: int,
    min_y: int,
    max_x: int,
    max_y: int,
    depth: u32,
    leaf: bool,
) -> bool {
    let ox = (a.ax * 72_000 - global_x(c)) * FINE_STEP;
    let oy = (a.ay * 72_000 - global_y(c)) * FINE_STEP;
    &&& b.min_x == ox + min_x
    &&& b.min_y == oy + min_y
    &&& b.max_x == ox + max_x
    &&& b.max_y == oy + max_y
    &&& b.depth == depth
    &&& b.leaf == leaf
}

pub open spec fn is_rel_node(b: RelBox, n: AabbNodeInfo, a: Anchor, c: GalaxyPos) -> bool {
    is_rel_box(
        b,
        a,
        c,
        n.region.min_x as int,
        n.region.min_y as int,
        n.region.max_x as int,
        n.region.max_y as int,
        n.depth,
        n.leaf,
    )
}

pub open spec fn is_rel_dot(r: RelDot, d: EntityDot, c: GalaxyPos) -> bool {
    &&& r.id == d.id
    &&& r.x == global_x(d.pos) - global_x(c)
    &&& r.y == global_y(d.pos) - global_y(c)
    &&& r.kind == d.kind
}

/// A cell as a view shows it. Dots and nodes are shown as far as the scale has them.
pub open spec fn is_rendered(r: RenderedCell, cr: CellReport, q: ViewQuery) -> bool {
    let scale = scale_for(q.reach as int);
    &&& r.anchor == cr.anchor
    &&& r.host == cr.host
    &&& r.players == cr.players
    &&& r.entities == cr.entities
    &&& r.tick_us == cr.tick_us
    &&& is_rel_box(
        r.rect,
        cr.anchor,
        q.center,
        0,
        0,
        72_000 * FINE_STEP,
        72_000 * FINE_STEP,
        0,
        true,
    )
    &&& r.aabb_nodes@.len() == (if scale == ViewScale::Ship {
        cr.aabb_nodes@.len()
    } else {
        0
    })
    &&& forall|i: int|
        0 <= i < r.aabb_nodes@.len() ==> is_rel_node(
            #[trigger] r.aabb_nodes@[i],
            cr.aabb_nodes@[i],
            cr.anchor,
            q.center,
        )
    &&& r.dots@.len() == (if scale != ViewScale::Galaxy {
        cr.dots@.len()
    } else {
        0
    })
    &&& forall|i: int|
        0 <= i < r.dots@.len() ==> is_rel_dot(#[trigger] r.dots@[i], cr.dots@[i], q.center)
    &&& r.dist2 == dist2_of(cr.anchor, q.center)
}

/// The latest report of every cell that is known.
pub struct MapAggregator {
    pub cells: SortedMap<Anchor, CellReport>,
}

/// The reports once those of a host are taken in.
pub open spec fn ingested(
    cells: Map<Anchor, CellReport>,
    reports: Seq<CellReport>,
) -> Map<Anchor, CellReport>
    decreases reports.len(),
{
    if reports.len() == 0 {
        cells
    } else {
        ingested(cells, reports.drop_last()).insert(reports.last().anchor, reports.last())
    }
}

fn way(a: i64, c: i128) -> (d: i128)
    requires
        -0x8000_0000_0000_0000 * 72_001 <= c <= 0x8000_0000_0000_0000 * 72_001,
    ensures
        d == a * 72_000 + 36_000 - c,
        -0x1_0000_0000_0000_0000_0000_0000 <= d <= 0x1_0000_0000_0000_0000_0000_0000,
{
    a as i128 * 72_000 + 36_000 - c
}

impl MapAggregator {
    pub open spec fn wf(&self) -> bool {
        &&& self.cells.wf()
        &&& forall|a: Anchor| #[trigger]
            self.cells@.contains_key(a) ==> self.cells@[a].anchor == a
    }

    pub fn new() -> (m: Self)
        ensures
            m.wf(),
            m.cells@ == Map::<Anchor, CellReport>::empty(),
    {
        MapAggregator { cells: SortedMap::new() }
    }

    /// Takes a report in, in place of the cell's earlier one.
    pub fn ingest(&mut self, report: CellReport)
        requires
            old(self).wf(),
        ensures
            final(self).wf(),
            final(self).cells@ == old(self).cells@.insert(report.anchor, report),
    {
        let _ = self.cells.insert(report.anchor, report);
    }

    /// Takes the reports of a host in.
    pub fn ingest_host(&mut self, report: HostReport)
        requires
            old(self).wf(),
        ensures
            final(self).wf(),
            final(self).cells@ == ingested(old(self).cells@, report.cells@),
    {
        let ghost all = report.cells@;
        let cells: Vec<CellReport> = report.cells;
        proof {
            assert(all.subrange(0, all.len() as int) =~= all);
            assert(all.subrange(0, 0) =~= Seq::<CellReport>::empty());
        }
        for c in rest: cells
            invariant
                self.wf(),
                rest.seq() == all,
                self.cells@ == ingested(old(self).cells@, all.subrange(0, rest.index())),
        {
            proof {
                let next = all.subrange(0, rest.index() + 1);
                assert(next.drop_last() =~= all.subrange(0, rest.index()));
                assert(next.last() == c);
            }
            self.ingest(c);
        }
    }

    /// Forgets a cell that has gone dark.
    pub fn forget(&mut self, anchor: Anchor)
        requires
            old(self).wf(),
        ensures
            final(self).wf(),
            final(self).cells@ == old(self).cells@.remove(anchor),
    {
        let _ = self.cells.remove(&anchor);
    }

    pub fn known_cells(&self) -> (n: usize)
        requires
            self.wf(),
        ensures
            self.cells@.dom().finite(),
            n == self.cells@.dom().len(),
    {
        self.cells.len()
    }

    fn candidates(&self, q: &ViewQuery) -> (r: Vec<Hit>)
        requires
            self.wf(),
        ensures
            r@ == candidates(self.cells.key_order(), *q, self.cells.key_order().len()),
    {
        let (cgx, cgy): (i128, i128) = q.center.global8();
        let keys = self.cells.keys();
        let reach: i128 = if q.reach < 0 {
            HALF_DIAGONAL_FLOOR + 1
        } else {
            q.reach as i128 + HALF_DIAGONAL_FLOOR + 1
        };
        let mut out: Vec<Hit> = Vec::new();
        let mut i: usize = 0;
        while i < keys.len()
            invariant
                i <= keys@.len(),
                keys@ == self.cells.key_order(),
                cgx == global_x(q.center),
                cgy == global_y(q.center),
                reach == outer(q.reach as int),
                out@ == candidates(keys@, *q, i as nat),
            decreases keys@.len() - i,
        {
            let a: Anchor = keys[i];
            let dx: i128 = way(a.ax, cgx);
            let dy: i128 = way(a.ay, cgy);
            proof {
                if reached(a, *q) {
                    lemma_outer(dist2_of(a, q.center), q.reach as int);
                }
            }
            if -reach <= dx && dx <= reach && -reach <= dy && dy <= reach {
                proof {
                    lemma_small_square(dx as int, reach as int);
                    lemma_small_square(dy as int, reach as int);
                    lemma_small_square(reach as int, reach as int);
                }
                if dy * dy <= reach * reach - dx * dx {
                    let dist2: i128 = dx * dx + dy * dy;
                    if is_within(dist2, q.reach) {
                        out.push(Hit { dist2, at: i });
                    }
                }
            } else {
                proof {
                    lemma_far(dx as int, dy as int, reach as int);
                    lemma_far(dy as int, dx as int, reach as int);
                }
            }
            i = i + 1;
        }
        out
    }

    /// A view of the cells within reach, the nearest first and no more than were asked for, with the
    /// rest counted.
    pub fn view(&self, q: &ViewQuery) -> (v: GalaxyView)
        requires
            self.wf(),
            players_of(
                hits_of(self.cells.key_order(), *q),
                self.cells.value_order(),
                fetched_of(self.cells.key_order(), *q),
            ) <= u32::MAX,
        ensures
            v.center == q.center,
            v.reach == q.reach,
            v.scale == scale_for(q.reach as int),
            v.cells@.len() == fetched_of(self.cells.key_order(), *q),
            v.fetched == v.cells@.len(),
            v.dropped == hits_of(self.cells.key_order(), *q).len() - v.fetched,
            v.total_players == players_of(
                hits_of(self.cells.key_order(), *q),
                self.cells.value_order(),
                v.cells@.len(),
            ),
            forall|i: int|
                #![trigger v.cells@[i]]
                0 <= i < v.cells@.len() ==> is_rendered(
                    v.cells@[i],
                    self.cells.value_order()[hits_of(self.cells.key_order(), *q)[i].at as int],
                    *q,
                ),
    {
        let ghost keys = self.cells.key_order();
        let ghost reports = self.cells.value_order();
        let scale = ViewScale::for_reach(q.reach);
        let hits = sort_stably(self.candidates(q));
        assert(hits@ == hits_of(keys, *q));
        let fetched: usize = if hits.len() <= q.max_cells {
            hits.len()
        } else {
            q.max_cells
        };
        let known = self.cells.values();
        let mut cells: Vec<RenderedCell> = Vec::new();
        let mut total_players: u32 = 0;
        let mut i: usize = 0;
        proof {
            self.cells.lemma_orders();
        }
        while i < fetched
            invariant
                i <= fetched <= hits@.len(),
                self.wf(),
                keys == self.cells.key_order(),
                reports == self.cells.value_order(),
                known@ == reports,
                keys.len() == reports.len(),
                hits@ == hits_of(keys, *q),
                scale == scale_for(q.reach as int),
                players_of(hits@, reports, fetched as nat) <= u32::MAX,
                total_players == players_of(hits@, reports, i as nat),
                cells@.len() == i,
                forall|j: int|
                    #![trigger cells@[j]]
                    0 <= j < i ==> is_rendered(cells@[j], reports[hits@[j].at as int], *q),
            decreases fetched - i,
        {
            proof {
                lemma_hit(*self, *q, i as int);
                lemma_players_grow(hits@, reports, (i + 1) as nat, fetched as nat);
            }
            let h: Hit = hits[i];
            let cr = &known[h.at];
            total_players = total_players + cr.players;
            cells.push(render(cr, q, scale, h.dist2));
            i = i + 1;
        }
        GalaxyView {
            center: q.center,
            reach: q.reach,
            scale,
            fetched: cells.len(),
            cells,
            dropped: hits.len() - fetched,
            total_players,
        }
    }
}

fn render(cr: &CellReport, q: &ViewQuery, scale: ViewScale, dist2: i128) -> (r: RenderedCell)
    requires
        scale == scale_for(q.reach as int),
        dist2 == dist2_of(cr.anchor, q.center),
    ensures
        is_rendered(r, *cr, *q),
{
    let (cgx, cgy): (i128, i128) = q.center.global8();
    let (ox, oy): (i128, i128) = cr.anchor.origin8();
    let left: i128 = (ox - cgx) * FINE_STEP;
    let top: i128 = (oy - cgy) * FINE_STEP;
    let rect = RelBox {
        min_x: left,
        min_y: top,
        max_x: left + 72_000 * FINE_STEP,
        max_y: top + 72_000 * FINE_STEP,
        depth: 0,
        leaf: true,
    };
    let mut aabb_nodes: Vec<RelBox> = Vec::new();
    if scale == ViewScale::Ship {
        let mut i: usize = 0;
        while i < cr.aabb_nodes.len()
            invariant
                i <= cr.aabb_nodes@.len(),
                cgx == global_x(q.center),
                cgy == global_y(q.center),
                left == (cr.anchor.ax * 72_000 - global_x(q.center)) * FINE_STEP,
                top == (cr.anchor.ay * 72_000 - global_y(q.center)) * FINE_STEP,
                -0x8_0000_0000_0000_0000_0000_0000_0000 <= left
                    <= 0x8_0000_0000_0000_0000_0000_0000_0000,
                -0x8_0000_0000_0000_0000_0000_0000_0000 <= top
                    <= 0x8_0000_0000_0000_0000_0000_0000_0000,
                aabb_nodes@.len() == i,
                forall|j: int|
                    0 <= j < i ==> is_rel_node(
                        #[trigger] aabb_nodes@[j],
                        cr.aabb_nodes@[j],
                        cr.anchor,
                        q.center,
                    ),
            decreases cr.aabb_nodes@.len() - i,
        {
            let n: AabbNodeInfo = cr.aabb_nodes[i];
            aabb_nodes.push(
                RelBox {
                    min_x: left + n.region.min_x as i128,
                    min_y: top + n.region.min_y as i128,
                    max_x: left + n.region.max_x as i128,
                    max_y: top + n.region.max_y as i128,
                    depth: n.depth,
                    leaf: n.leaf,
                },
            );
            i = i + 1;
        }
    }
    let mut dots: Vec<RelDot> = Vec::new();
    if scale != ViewScale::Galaxy {
        let mut i: usize = 0;
        while i < cr.dots.len()
            invariant
                i <= cr.dots@.len(),
                dots@.len() == i,
                forall|j: int|
                    0 <= j < i ==> is_rel_dot(#[trigger] dots@[j], cr.dots@[j], q.center),
            decreases cr.dots@.len() - i,
        {
            let d = &cr.dots[i];
            let (x, y): (i128, i128) = d.pos.delta(q.center);
            dots.push(RelDot { id: d.id.clone(), x, y, kind: d.kind });
            i = i + 1;
        }
    }
    RenderedCell {
        anchor: cr.anchor,
        host: cr.host.clone(),
        players: cr.players,
        entities: cr.entities,
        tick_us: cr.tick_us,
        rect,
        aabb_nodes,
        dots,
        dist2,
    }
}

/// A whole number of steps that nothing within the reach and half of a cell's diagonal lies beyond.
spec fn outer(r: int) -> int {
    if r < 0 {
        HALF_DIAGONAL_FLOOR + 1
    } else {
        r + HALF_DIAGONAL_FLOOR + 1
    }
}

/// Whether a length whose square is `d2` is no longer than `r` and half of a cell's diagonal.
fn is_within(d2: i128, r: i64) -> (yes: bool)
    requires
        0 <= d2,
    ensures
        yes == within(d2 as int, r as int),
{
    let r: i128 = r as i128;
    proof {
        assert(0 <= r * r <= 0x8000_0000_0000_0000 * 0x8000_0000_0000_0000) by (nonlinear_arith)
            requires
                -0x8000_0000_0000_0000 <= r <= 0x8000_0000_0000_0000,
        ;
    }
    if r < 0 {
        if r < -HALF_DIAGONAL_FLOOR {
            assert(r * r >= 50_912 * 50_912) by (nonlinear_arith)
                requires
                    r <= -50_912,
            ;
            return false;
        }
        assert(r * r <= 50_911 * 50_911) by (nonlinear_arith)
            requires
                -50_911 <= r <= 0,
        ;
        let under: i128 = HALF_DIAGONAL_SQUARED + r * r - d2;
        if under < 0 {
            return false;
        }
        assert(0 <= under * under <= 5_184_000_000 * 5_184_000_000) by (nonlinear_arith)
            requires
                0 <= under <= 5_184_000_000,
        ;
        assert(under * under == (-under) * (-under)) by (nonlinear_arith);
        return 4 * (r * r) * HALF_DIAGONAL_SQUARED <= under * under;
    }
    let over: i128 = d2 - r * r - HALF_DIAGONAL_SQUARED;
    if over <= 0 {
        return true;
    }
    if r == 0 {
        assert(over * over > 0) by (nonlinear_arith)
            requires
                over > 0,
        ;
        assert(r * r == 0) by (nonlinear_arith)
            requires
                r == 0,
        ;
        return false;
    }
    let b: u128 = 2 * r as u128;
    let o: u128 = over as u128;
    let q: u128 = o / b;
    let m: u128 = o % b;
    proof {
        vstd::arithmetic::div_mod::lemma_fundamental_div_mod(o as int, b as int);
        vstd::arithmetic::div_mod::lemma_mod_bound(o as int, b as int);
        assert(4 * (r * r) == b * b) by (nonlinear_arith)
            requires
                b == 2 * r,
        ;
        lemma_quotient_decides(o as int, b as int, q as int, m as int);
    }
    if q != HALF_DIAGONAL_FLOOR as u128 {
        return q < HALF_DIAGONAL_FLOOR as u128;
    }
    let n: i128 = 70_079 * b as i128 - 101_822 * m as i128;
    if n < 0 {
        assert(n * b < 0 <= m * m) by (nonlinear_arith)
            requires
                n < 0,
                b > 0,
        ;
        return false;
    }
    assert(0 <= m * m <= 0xffff_ffff_ffff_ffff * 0xffff_ffff_ffff_ffff) by (nonlinear_arith)
        requires
            0 <= m <= 0xffff_ffff_ffff_ffff,
    ;
    let k: u128 = (m * m) / b;
    let e: u128 = (m * m) % b;
    proof {
        vstd::arithmetic::div_mod::lemma_fundamental_div_mod(m * m, b as int);
        vstd::arithmetic::div_mod::lemma_mod_bound(m * m, b as int);
        lemma_rest_decides(m * m, n as int, b as int, k as int, e as int);
    }
    k < n as u128 || (k == n as u128 && e == 0)
}

proof fn lemma_quotient_decides(o: int, b: int, q: int, m: int)
    requires
        0 < b,
        0 <= m < b,
        0 <= q,
        o == b * q + m,
    ensures
        q < 50_911 ==> o * o <= b * b * 2_592_000_000,
        q > 50_911 ==> o * o > b * b * 2_592_000_000,
        q == 50_911 ==> (o * o <= b * b * 2_592_000_000 <==> m * m <= (70_079 * b - 101_822 * m)
            * b),
{
    assert(b * b > 0) by (nonlinear_arith)
        requires
            b > 0,
    ;
    if q < 50_911 {
        assert(b * q <= b * 50_910) by (nonlinear_arith)
            requires
                q <= 50_910,
                b > 0,
        ;
        assert(o * o <= (b * 50_911) * (b * 50_911)) by (nonlinear_arith)
            requires
                0 <= o <= b * 50_911,
        ;
        assert((b * 50_911) * (b * 50_911) == b * b * 2_591_929_921) by (nonlinear_arith);
    } else if q > 50_911 {
        assert(b * q >= b * 50_912) by (nonlinear_arith)
            requires
                q >= 50_912,
                b > 0,
        ;
        assert(o * o >= (b * 50_912) * (b * 50_912)) by (nonlinear_arith)
            requires
                o >= b * 50_912,
                b > 0,
        ;
        assert((b * 50_912) * (b * 50_912) == b * b * 2_592_031_744) by (nonlinear_arith);
    } else {
        assert(o * o == b * b * 2_591_929_921 + 101_822 * (m * b) + m * m) by (nonlinear_arith)
            requires
                o == b * 50_911 + m,
        ;
        assert((70_079 * b - 101_822 * m) * b == 70_079 * (b * b) - 101_822 * (m * b))
            by (nonlinear_arith);
    }
}

proof fn lemma_rest_decides(a: int, n: int, b: int, k: int, e: int)
    requires
        a == b * k + e,
        0 <= e < b,
    ensures
        a <= n * b <==> k < n || (k == n && e == 0),
{
    if k < n {
        assert(b * (k + 1) <= n * b) by (nonlinear_arith)
            requires
                k + 1 <= n,
                0 < b,
        ;
        assert(b * (k + 1) == b * k + b) by (nonlinear_arith);
    } else if k > n {
        assert(b * k >= b * (n + 1)) by (nonlinear_arith)
            requires
                k >= n + 1,
                0 < b,
        ;
        assert(b * (n + 1) == n * b + b) by (nonlinear_arith);
    } else {
        assert(b * k == n * b) by (nonlinear_arith)
            requires
                k == n,
        ;
    }
}

proof fn lemma_outer(d2: int, r: int)
    requires
        within(d2, r),
    ensures
        d2 <= outer(r) * outer(r),
{
    let over = d2 - r * r - HALF_DIAGONAL_SQUARED;
    let t = outer(r);
    if r < 0 {
        lemma_negative_reach(d2, r);
        assert(r * r >= 0) by (nonlinear_arith);
        assert(t * t == 2_592_031_744) by (nonlinear_arith)
            requires
                t == 50_912,
        ;
    } else {
        assert(r * r >= 0) by (nonlinear_arith);
        assert(t * t == r * r + 2 * (r * 50_912) + 2_592_031_744) by (nonlinear_arith)
            requires
                t == r + 50_912,
        ;
        if over > 0 {
            let w = 2 * (r * 50_912);
            assert(w * w == 4 * (r * r) * 2_592_031_744) by (nonlinear_arith)
                requires
                    w == 2 * (r * 50_912),
            ;
            assert(over <= w) by (nonlinear_arith)
                requires
                    over * over <= w * w,
                    w >= 0,
                    over > 0,
            ;
        }
    }
}

/// What a negative reach still leaves in sight lies well inside of half of the diagonal.
proof fn lemma_negative_reach(d2: int, r: int)
    requires
        r < 0,
        within(d2, r),
    ensures
        d2 <= HALF_DIAGONAL_SQUARED - r * r,
{
    let under = HALF_DIAGONAL_SQUARED + r * r - d2;
    let over = d2 - r * r - HALF_DIAGONAL_SQUARED;
    let a = r * r;
    assert(under * under == over * over) by (nonlinear_arith)
        requires
            under == -over,
    ;
    assert(a >= 0) by (nonlinear_arith)
        requires
            a == r * r,
    ;
    assert(4 * a * 2_592_000_000 >= (2 * a) * (2 * a)) by (nonlinear_arith)
        requires
            0 <= a <= 2_592_000_000,
    ;
    assert(under >= 2 * a) by (nonlinear_arith)
        requires
            under * under >= (2 * a) * (2 * a),
            under >= 0,
            a >= 0,
    ;
}

/// Reaching further only adds.
proof fn lemma_within_grows(d2: int, r: int, s: int)
    requires
        r <= s,
        within(d2, r),
    ensures
        within(d2, s),
{
    let h = HALF_DIAGONAL_SQUARED as int;
    let over_r = d2 - r * r - h;
    let over_s = d2 - s * s - h;
    if r >= 0 {
        assert(r * r <= s * s) by (nonlinear_arith)
            requires
                0 <= r <= s,
        ;
        if over_s > 0 {
            assert(over_s * over_s <= over_r * over_r) by (nonlinear_arith)
                requires
                    0 < over_s <= over_r,
            ;
        }
    } else {
        lemma_negative_reach(d2, r);
        assert(r * r >= 0) by (nonlinear_arith);
        assert(s * s >= 0) by (nonlinear_arith);
        if s < 0 {
            let a = r * r;
            let b = s * s;
            assert(b <= a) by (nonlinear_arith)
                requires
                    a == r * r,
                    b == s * s,
                    r <= s < 0,
            ;
            let e = a - b;
            let m = -over_s;
            assert(over_r * over_r == m * m + 2 * (m * e) + e * e) by (nonlinear_arith)
                requires
                    over_r == -(m + e),
            ;
            assert(over_s * over_s == m * m) by (nonlinear_arith)
                requires
                    m == -over_s,
            ;
            if m * m < 4 * b * h {
                // Then 4 h e < 2 m e + e e, which m < (3 h + b) / 2 forbids.
                assert((3 * h + b) * (3 * h + b) - 16 * b * h == (9 * h - b) * (h - b))
                    by (nonlinear_arith);
                assert((9 * h - b) * (h - b) >= 0) by (nonlinear_arith)
                    requires
                        b <= h,
                        h >= 0,
                ;
                assert((2 * m) * (2 * m) == 4 * (m * m)) by (nonlinear_arith);
                assert(16 * b * h == 4 * (4 * b * h)) by (nonlinear_arith);
                assert(2 * m < 3 * h + b) by (nonlinear_arith)
                    requires
                        (2 * m) * (2 * m) < (3 * h + b) * (3 * h + b),
                        h >= 0,
                        b >= 0,
                ;
                assert(2 * (m * e) + e * e <= 4 * h * e) by (nonlinear_arith)
                    requires
                        2 * m <= 4 * h - e,
                        e >= 0,
                ;
                assert(4 * a * h == 4 * b * h + 4 * h * e) by (nonlinear_arith)
                    requires
                        a == b + e,
                ;
                assert(false);
            }
        }
    }
}

proof fn lemma_small_square(d: int, r: int)
    requires
        -r <= d <= r,
        0 <= r <= i64::MAX + 50_912,
    ensures
        0 <= d * d <= r * r <= i128::MAX,
{
    assert(0 <= d * d <= r * r) by (nonlinear_arith)
        requires
            -r <= d <= r,
            0 <= r,
    ;
    assert(r * r <= 0x8000_0000_0001_0000 * 0x8000_0000_0001_0000) by (nonlinear_arith)
        requires
            0 <= r <= 0x8000_0000_0001_0000,
    ;
}

proof fn lemma_far(d: int, e: int, r: int)
    requires
        0 <= r,
    ensures
        (d < -r || d > r) ==> d * d + e * e > r * r,
        e * e + d * d == d * d + e * e,
{
    assert((d < -r || d > r) ==> d * d > r * r) by (nonlinear_arith)
        requires
            0 <= r,
    ;
    assert(e * e >= 0) by (nonlinear_arith);
}

proof fn lemma_players_grow(hits: Seq<Hit>, reports: Seq<CellReport>, n: nat, m: nat)
    requires
        n <= m,
    ensures
        players_of(hits, reports, n) <= players_of(hits, reports, m),
    decreases m,
{
    if n < m {
        lemma_players_grow(hits, reports, n, (m - 1) as nat);
    }
}

proof fn lemma_candidates(keys: Seq<Anchor>, q: ViewQuery, n: nat, k: int)
    requires
        n <= keys.len() <= usize::MAX,
        0 <= k < candidates(keys, q, n).len(),
    ensures
        ({
            let h = candidates(keys, q, n)[k];
            &&& h.at < n
            &&& reached(keys[h.at as int], q)
            &&& h.dist2 == dist2_of(keys[h.at as int], q.center)
        }),
    decreases n,
{
    let before = candidates(keys, q, (n - 1) as nat);
    if k < before.len() {
        lemma_candidates(keys, q, (n - 1) as nat, k);
    } else {
        let r = outer(q.reach as int);
        lemma_small_square(r, r);
        let a = keys[n - 1];
        lemma_outer(dist2_of(a, q.center), q.reach as int);
        assert(dist2_of(a, q.center) >= 0) by {
            let dx = way_x(a, q.center);
            let dy = way_y(a, q.center);
            assert(dx * dx >= 0) by (nonlinear_arith);
            assert(dy * dy >= 0) by (nonlinear_arith);
        }
    }
}

proof fn lemma_hit(m: MapAggregator, q: ViewQuery, k: int)
    requires
        m.wf(),
        0 <= k < hits_of(m.cells.key_order(), q).len(),
    ensures
        ({
            let h = hits_of(m.cells.key_order(), q)[k];
            &&& h.at < m.cells.value_order().len()
            &&& m.cells.value_order()[h.at as int].anchor == m.cells.key_order()[h.at as int]
            &&& h.dist2 == dist2_of(m.cells.value_order()[h.at as int].anchor, q.center)
        }),
{
    let keys = m.cells.key_order();
    let c = candidates(keys, q, keys.len());
    let h = hits_of(keys, q)[k];
    m.cells.lemma_orders();
    m.cells.lemma_len();
    assert(hits_of(keys, q).contains(h));
    crate::sort::lemma_sorted_contains(c, h);
    let j = choose|j: int| 0 <= j < c.len() && c[j] == h;
    lemma_candidates(keys, q, keys.len(), j);
    assert(m.cells@.contains_pair(keys[h.at as int]@, m.cells.value_order()[h.at as int]));
}

/// A view never holds more cells than were asked for, and every cell within reach is either in it or
/// counted as dropped.
pub proof fn law_nothing_is_hidden(keys: Seq<Anchor>, q: ViewQuery, k: int)
    requires
        0 <= k < keys.len() <= usize::MAX,
    ensures
        fetched_of(keys, q) <= q.max_cells,
        fetched_of(keys, q) + (hits_of(keys, q).len() - fetched_of(keys, q)) == candidates(
            keys,
            q,
            keys.len(),
        ).len(),
        reached(keys[k], q) <==> exists|i: int|
            0 <= i < hits_of(keys, q).len() && (#[trigger] hits_of(keys, q)[i]).at == k,
{
    let c = candidates(keys, q, keys.len());
    let hits = hits_of(keys, q);
    lemma_stably_sorted(c);
    if reached(keys[k], q) {
        let i = lemma_candidate_of(keys, q, keys.len(), k);
        crate::sort::lemma_sorted_contains(c, c[i]);
        assert(c.contains(c[i]));
        let j = choose|j: int| 0 <= j < hits.len() && hits[j] == c[i];
        assert(hits[j].at == k);
    }
    if exists|i: int| 0 <= i < hits.len() && (#[trigger] hits[i]).at == k {
        let i = choose|i: int| 0 <= i < hits.len() && (#[trigger] hits[i]).at == k;
        assert(hits.contains(hits[i]));
        crate::sort::lemma_sorted_contains(c, hits[i]);
        let j = choose|j: int| 0 <= j < c.len() && c[j] == hits[i];
        lemma_candidates(keys, q, keys.len(), j);
    }
}

proof fn lemma_candidate_of(keys: Seq<Anchor>, q: ViewQuery, n: nat, k: int) -> (i: int)
    requires
        0 <= k < n <= keys.len() <= usize::MAX,
        reached(keys[k], q),
    ensures
        0 <= i < candidates(keys, q, n).len(),
        candidates(keys, q, n)[i].at == k,
    decreases n,
{
    let before = candidates(keys, q, (n - 1) as nat);
    if k < n - 1 {
        lemma_candidate_of(keys, q, (n - 1) as nat, k)
    } else {
        before.len() as int
    }
}

/// The cells of a view come nearest first, and what is dropped is no nearer than what is kept.
pub proof fn law_nearest_first(keys: Seq<Anchor>, q: ViewQuery, i: int, j: int)
    requires
        0 <= i < j < hits_of(keys, q).len(),
    ensures
        hits_of(keys, q)[i].dist2 <= hits_of(keys, q)[j].dist2,
{
    let hits = hits_of(keys, q);
    lemma_stably_sorted(candidates(keys, q, keys.len()));
    assert(!hits[j].before(&hits[i]));
}

/// A view that reaches further holds within its reach whatever a nearer one does.
pub proof fn law_reach_only_widens(a: Anchor, near: ViewQuery, far: ViewQuery)
    requires
        near.center == far.center,
        near.reach <= far.reach,
        reached(a, near),
    ensures
        reached(a, far),
{
    lemma_within_grows(dist2_of(a, near.center), near.reach as int, far.reach as int);
}

proof fn lemma_lagrange(ux: int, uy: int, vx: int, vy: int)
    ensures
        (ux * vx + uy * vy) * (ux * vx + uy * vy) + (ux * vy - uy * vx) * (ux * vy - uy * vx) == (ux
            * ux + uy * uy) * (vx * vx + vy * vy),
{
    let (a, b, c, d) = (ux * vx, uy * vy, ux * vy, uy * vx);
    let (xx, yy, vv, ww) = (ux * ux, uy * uy, vx * vx, vy * vy);
    assert((a + b) * (a + b) == a * a + 2 * (a * b) + b * b) by (nonlinear_arith);
    assert((c - d) * (c - d) == c * c - 2 * (c * d) + d * d) by (nonlinear_arith);
    assert((xx + yy) * (vv + ww) == xx * vv + xx * ww + yy * vv + yy * ww) by (nonlinear_arith);
    assert((ux * vx) * (uy * vy) == (ux * vy) * (uy * vx)) by (nonlinear_arith);
    assert((ux * vx) * (ux * vx) == (ux * ux) * (vx * vx)) by (nonlinear_arith);
    assert((uy * vy) * (uy * vy) == (uy * uy) * (vy * vy)) by (nonlinear_arith);
    assert((ux * vy) * (ux * vy) == (ux * ux) * (vy * vy)) by (nonlinear_arith);
    assert((uy * vx) * (uy * vx) == (uy * uy) * (vx * vx)) by (nonlinear_arith);
}

/// A cell that has a point within the reach of a view is within its reach. The point is given in steps
/// from the corner of the cell.
pub proof fn law_every_footprint_in_reach_is_found(a: Anchor, q: ViewQuery, px: int, py: int)
    requires
        0 <= px <= 72_000,
        0 <= py <= 72_000,
        q.reach >= 0,
        ({
            let ux = a.ax * 72_000 + px - global_x(q.center);
            let uy = a.ay * 72_000 + py - global_y(q.center);
            ux * ux + uy * uy <= q.reach * q.reach
        }),
    ensures
        reached(a, q),
{
    let ux = a.ax * 72_000 + px - global_x(q.center);
    let uy = a.ay * 72_000 + py - global_y(q.center);
    let vx = 36_000 - px;
    let vy = 36_000 - py;
    let r = q.reach as int;
    let h = HALF_DIAGONAL_SQUARED as int;
    let u2 = ux * ux + uy * uy;
    let v2 = vx * vx + vy * vy;
    let uv = ux * vx + uy * vy;
    assert(vx * vx <= 36_000 * 36_000) by (nonlinear_arith)
        requires
            -36_000 <= vx <= 36_000,
    ;
    assert(vy * vy <= 36_000 * 36_000) by (nonlinear_arith)
        requires
            -36_000 <= vy <= 36_000,
    ;
    assert(dist2_of(a, q.center) == u2 + 2 * uv + v2) by (nonlinear_arith)
        requires
            dist2_of(a, q.center) == (ux + vx) * (ux + vx) + (uy + vy) * (uy + vy),
            u2 == ux * ux + uy * uy,
            v2 == vx * vx + vy * vy,
            uv == ux * vx + uy * vy,
    ;
    let cross = ux * vy - uy * vx;
    lemma_lagrange(ux, uy, vx, vy);
    assert(cross * cross >= 0) by (nonlinear_arith);
    assert(ux * ux >= 0 && uy * uy >= 0) by (nonlinear_arith);
    assert(vx * vx >= 0 && vy * vy >= 0) by (nonlinear_arith);
    assert(u2 * v2 <= (r * r) * h) by (nonlinear_arith)
        requires
            0 <= u2 <= r * r,
            0 <= v2 <= h,
    ;
    let over = dist2_of(a, q.center) - r * r - h;
    if over > 0 {
        assert(over * over <= 4 * (uv * uv)) by (nonlinear_arith)
            requires
                0 < over <= 2 * uv,
        ;
        assert(4 * (r * r) * h == 4 * ((r * r) * h)) by (nonlinear_arith);
    }
}

/// What a view shows does not depend on how far out it is: moving the centre and a cell by the same
/// number of cells changes no distance.
pub proof fn law_view_is_its_own_origin(a: Anchor, c: GalaxyPos, b: Anchor, d: GalaxyPos, n: int, m: int)
    requires
        b.ax == a.ax + n,
        b.ay == a.ay + m,
        d.anchor.ax == c.anchor.ax + n,
        d.anchor.ay == c.anchor.ay + m,
        d.x == c.x,
        d.y == c.y,
    ensures
        way_x(b, d) == way_x(a, c),
        way_y(b, d) == way_y(a, c),
        dist2_of(b, d) == dist2_of(a, c),
{
}

/// How far a cell is from the centre of a view: from its middle, half of 72 000 steps from its corner on either side, in
/// both coordinates.
pub proof fn law_distance_to_the_middle(a: Anchor, c: GalaxyPos)
    ensures
        ({
            let dx = 72_000 * (a.ax - c.anchor.ax) + 36_000 - c.x;
            let dy = 72_000 * (a.ay - c.anchor.ay) + 36_000 - c.y;
            dist2_of(a, c) == dx * dx + dy * dy
        }),
{
    let dx = 72_000 * (a.ax - c.anchor.ax) + 36_000 - c.x;
    let dy = 72_000 * (a.ay - c.anchor.ay) + 36_000 - c.y;
    assert(dx == way_x(a, c) && dy == way_y(a, c));
}

/// A view takes in no more than it reaches: a cell whose middle is more than half a diagonal beyond the reach is left out, and
/// one whose middle is less than that beyond is taken in. The half diagonal lies between 50 911 and 50 912 steps.
pub proof fn law_reach_is_tight(d2: int, r: int)
    requires
        0 <= r,
        0 <= d2,
    ensures
        within(d2, r) ==> d2 <= (r + 50_912) * (r + 50_912),
        d2 <= (r + 50_911) * (r + 50_911) ==> within(d2, r),
        2 * 36_000 * 36_000 == HALF_DIAGONAL_SQUARED,
{
    if within(d2, r) {
        lemma_outer(d2, r);
    }
    if d2 <= (r + 50_911) * (r + 50_911) {
        let over = d2 - r * r - HALF_DIAGONAL_SQUARED;
        let w = 2 * (r * 50_911);
        assert((r + 50_911) * (r + 50_911) == r * r + w + 2_591_929_921) by (nonlinear_arith)
            requires
                w == 2 * (r * 50_911),
        ;
        if over > 0 {
            assert(over * over <= w * w) by (nonlinear_arith)
                requires
                    0 < over <= w,
            ;
            assert(w * w == 4 * (r * r) * 2_591_929_921) by (nonlinear_arith)
                requires
                    w == 2 * (r * 50_911),
            ;
            assert(r * r >= 0) by (nonlinear_arith);
        }
    }
}

/// What a view shows goes by its reach: up to three cells wide the nodes and the dots, up to eighty the dots alone, and beyond
/// that only the cells.
pub proof fn law_detail_goes_by_reach(r: RenderedCell, cr: CellReport, q: ViewQuery)
    requires
        is_rendered(r, cr, q),
    ensures
        q.reach <= 216_000 ==> r.aabb_nodes@.len() == cr.aabb_nodes@.len() && r.dots@.len()
            == cr.dots@.len(),
        216_000 < q.reach <= 5_760_000 ==> r.aabb_nodes@.len() == 0 && r.dots@.len() == cr.dots@.len(),
        q.reach > 5_760_000 ==> r.aabb_nodes@.len() == 0 && r.dots@.len() == 0,
        r.anchor == cr.anchor && r.players == cr.players && r.entities == cr.entities && r.host
            == cr.host && r.tick_us == cr.tick_us,
{
}

/// A view is drawn to one scale: every cell is a square of 9000 units, and two cells are as far apart in it as their anchors,
/// along each axis.
pub proof fn law_views_are_to_scale(
    r: RenderedCell,
    cr: CellReport,
    s: RenderedCell,
    cs: CellReport,
    q: ViewQuery,
)
    requires
        is_rendered(r, cr, q),
        is_rendered(s, cs, q),
    ensures
        r.rect.max_x - r.rect.min_x == 9000 * 0x100_0000,
        r.rect.max_y - r.rect.min_y == 9000 * 0x100_0000,
        s.rect.min_x - r.rect.min_x == (cs.anchor.ax - cr.anchor.ax) * (9000 * 0x100_0000),
        s.rect.min_y - r.rect.min_y == (cs.anchor.ay - cr.anchor.ay) * (9000 * 0x100_0000),
        cr.anchor == q.center.anchor && q.center.x == 0 && q.center.y == 0 ==> r.rect.min_x == 0
            && r.rect.min_y == 0,
{
}

/// The dots of a view are measured from its centre, along each axis, in steps.
pub proof fn law_dots_are_measured_from_the_centre(r: RenderedCell, cr: CellReport, q: ViewQuery, i: int)
    requires
        is_rendered(r, cr, q),
        0 <= i < r.dots@.len(),
        i < cr.dots@.len(),
    ensures
        r.dots@[i].id == cr.dots@[i].id,
        r.dots@[i].kind == cr.dots@[i].kind,
        r.dots@[i].x == 72_000 * (cr.dots@[i].pos.anchor.ax - q.center.anchor.ax) + cr.dots@[i].pos.x
            - q.center.x,
        r.dots@[i].y == 72_000 * (cr.dots@[i].pos.anchor.ay - q.center.anchor.ay) + cr.dots@[i].pos.y
            - q.center.y,
{
    assert(is_rel_dot(r.dots@[i], cr.dots@[i], q.center));
}

/// The players of a view are those of the cells in it, each cell counted once.
pub proof fn law_players_in_view_add_up(hits: Seq<Hit>, reports: Seq<CellReport>, n: nat)
    ensures
        players_of(hits, reports, 0) == 0,
        players_of(hits, reports, n + 1) - players_of(hits, reports, n) == reports[hits[n as int].at as int].players,
{
}

/// The latest report of a cell counts, and no report touches another cell.
pub proof fn law_latest_report_counts(
    cells: Map<Anchor, CellReport>,
    reports: Seq<CellReport>,
    r: CellReport,
    other: Anchor,
)
    requires
        other != r.anchor,
    ensures
        ingested(cells, reports.push(r)).contains_pair(r.anchor, r),
        ingested(cells, reports.push(r)).contains_key(other) <==> ingested(cells, reports).contains_key(
            other,
        ),
        ingested(cells, reports).contains_key(other) ==> ingested(cells, reports.push(r))[other]
            == ingested(cells, reports)[other],
        ingested(cells, Seq::empty()) == cells,
{
    assert(reports.push(r).drop_last() =~= reports);
}

/// A ship is drawn where it is, eight steps to a unit, as a player's or as one of a fleet.
pub proof fn law_dots_are_where_ships_are(d: EntityDot, sim: Sim, id: String, ship: Ship)
    requires
        is_dot_of(d, sim, id, ship),
    ensures
        global_x(d.pos) == 8 * (9000 * sim.sector.sx + ship.body.x),
        global_y(d.pos) == 8 * (9000 * sim.sector.sy + ship.body.y),
        d.kind == DotKind::Player <==> ship.owner is None,
        d.kind == DotKind::Npc <==> ship.owner is Some,
{
}

} // verus!
