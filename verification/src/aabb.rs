//! Axis-aligned boxes, and the tree that finds the boxes which overlap a query.
//!
//! The broad phase of a sector: instead of comparing every pair, a query visits only the branches
//! whose region can hold an overlap. Coordinates are whole units of a grid that the caller chooses; the
//! regions of the tree are halved in far smaller parts.
use vstd::prelude::*;

use crate::sort::{lemma_filter_none, lemma_filter_push};

pub mod dynamic;
pub use dynamic::{DynamicAabbTree, Proxy};

verus! {

/// A box with its edges. `min <= max` on both axes for every box that this module makes.
#[derive(Debug, Clone, Copy, PartialEq, Eq, Structural)]
pub struct Aabb {
    pub min_x: i32,
    pub min_y: i32,
    pub max_x: i32,
    pub max_y: i32,
}

pub open spec fn lesser(a: int, b: int) -> int {
    if a < b {
        a
    } else {
        b
    }
}

pub open spec fn greater(a: int, b: int) -> int {
    if a < b {
        b
    } else {
        a
    }
}

/// The two boxes overlap; touching edges count.
pub open spec fn overlaps(a: Aabb, b: Aabb) -> bool {
    a.min_x <= b.max_x && a.max_x >= b.min_x && a.min_y <= b.max_y && a.max_y >= b.min_y
}

/// The box `a` contains the box `b`.
pub open spec fn encloses(a: Aabb, b: Aabb) -> bool {
    a.min_x <= b.min_x && a.min_y <= b.min_y && a.max_x >= b.max_x && a.max_y >= b.max_y
}

/// The smallest box around two.
pub open spec fn hull(a: Aabb, b: Aabb) -> Aabb {
    Aabb {
        min_x: lesser(a.min_x as int, b.min_x as int) as i32,
        min_y: lesser(a.min_y as int, b.min_y as int) as i32,
        max_x: greater(a.max_x as int, b.max_x as int) as i32,
        max_y: greater(a.max_y as int, b.max_y as int) as i32,
    }
}

/// The box grown by `pad` on every side fits in its coordinates.
pub open spec fn growable(b: Aabb, pad: int) -> bool {
    i32::MIN <= b.min_x - pad <= i32::MAX && i32::MIN <= b.min_y - pad <= i32::MAX && i32::MIN
        <= b.max_x + pad <= i32::MAX && i32::MIN <= b.max_y + pad <= i32::MAX
}

/// The box grown by `pad` on every side.
pub open spec fn grown(b: Aabb, pad: int) -> Aabb {
    Aabb {
        min_x: (b.min_x - pad) as i32,
        min_y: (b.min_y - pad) as i32,
        max_x: (b.max_x + pad) as i32,
        max_y: (b.max_y + pad) as i32,
    }
}

/// The middle of two coordinates, rounded down.
pub open spec fn middle(a: int, b: int) -> int {
    (a + b) / 2
}

fn mid(a: i32, b: i32) -> (m: i32)
    ensures
        m == middle(a as int, b as int),
        a <= b ==> a <= m <= b,
{
    let s: i64 = a as i64 + b as i64;
    let m: i64 = if s >= 0 {
        s / 2
    } else {
        -((1 - s) / 2)
    };
    m as i32
}

impl Aabb {
    /// The edges are in order.
    pub open spec fn wf(&self) -> bool {
        self.min_x <= self.max_x && self.min_y <= self.max_y
    }

    /// A box from two corners, in whatever order they are given.
    pub fn new(min_x: i32, min_y: i32, max_x: i32, max_y: i32) -> (b: Self)
        ensures
            b.wf(),
            b.min_x == lesser(min_x as int, max_x as int),
            b.min_y == lesser(min_y as int, max_y as int),
            b.max_x == greater(min_x as int, max_x as int),
            b.max_y == greater(min_y as int, max_y as int),
    {
        Aabb {
            min_x: if min_x < max_x { min_x } else { max_x },
            min_y: if min_y < max_y { min_y } else { max_y },
            max_x: if min_x < max_x { max_x } else { min_x },
            max_y: if min_y < max_y { max_y } else { min_y },
        }
    }

    /// The square of half-side `r` around a point.
    pub fn around(x: i32, y: i32, r: i32) -> (b: Self)
        requires
            i32::MIN <= x - r <= i32::MAX,
            i32::MIN <= x + r <= i32::MAX,
            i32::MIN <= y - r <= i32::MAX,
            i32::MIN <= y + r <= i32::MAX,
        ensures
            b.min_x == x - r,
            b.min_y == y - r,
            b.max_x == x + r,
            b.max_y == y + r,
            r >= 0 ==> b.wf(),
    {
        Aabb { min_x: x - r, min_y: y - r, max_x: x + r, max_y: y + r }
    }

    pub fn intersects(&self, o: &Aabb) -> (r: bool)
        ensures
            r == overlaps(*self, *o),
    {
        self.min_x <= o.max_x && self.max_x >= o.min_x && self.min_y <= o.max_y && self.max_y
            >= o.min_y
    }

    /// Is the point in the box? The edges belong to it.
    pub fn contains_point(&self, x: i32, y: i32) -> (r: bool)
        ensures
            r == (self.min_x <= x <= self.max_x && self.min_y <= y <= self.max_y),
    {
        x >= self.min_x && x <= self.max_x && y >= self.min_y && y <= self.max_y
    }

    /// The middle of the box, rounded down.
    pub fn center(&self) -> (c: (i32, i32))
        ensures
            c.0 == middle(self.min_x as int, self.max_x as int),
            c.1 == middle(self.min_y as int, self.max_y as int),
            self.wf() ==> self.min_x <= c.0 <= self.max_x && self.min_y <= c.1 <= self.max_y,
    {
        (mid(self.min_x, self.max_x), mid(self.min_y, self.max_y))
    }

    /// The box grown by `pad` on every side.
    pub fn expanded(&self, pad: i32) -> (b: Aabb)
        requires
            growable(*self, pad as int),
        ensures
            b == grown(*self, pad as int),
            self.wf() && pad >= 0 ==> b.wf(),
    {
        Aabb {
            min_x: self.min_x - pad,
            min_y: self.min_y - pad,
            max_x: self.max_x + pad,
            max_y: self.max_y + pad,
        }
    }

    /// The smallest box around both.
    pub fn union(&self, o: &Aabb) -> (b: Aabb)
        ensures
            b == hull(*self, *o),
            self.wf() && o.wf() ==> b.wf(),
            encloses(b, *self),
            encloses(b, *o),
    {
        Aabb {
            min_x: if self.min_x < o.min_x { self.min_x } else { o.min_x },
            min_y: if self.min_y < o.min_y { self.min_y } else { o.min_y },
            max_x: if self.max_x < o.max_x { o.max_x } else { self.max_x },
            max_y: if self.max_y < o.max_y { o.max_y } else { self.max_y },
        }
    }

    /// The length of the edges: the cost of visiting a box.
    pub fn perimeter(&self) -> (p: i64)
        ensures
            p == 2 * ((self.max_x - self.min_x) + (self.max_y - self.min_y)),
            -0x4_0000_0000 <= p <= 0x4_0000_0000,
    {
        2 * ((self.max_x as i64 - self.min_x as i64) + (self.max_y as i64 - self.min_y as i64))
    }

    pub fn contains(&self, o: &Aabb) -> (r: bool)
        ensures
            r == encloses(*self, *o),
    {
        self.min_x <= o.min_x && self.min_y <= o.min_y && self.max_x >= o.max_x && self.max_y
            >= o.max_y
    }
}

/// The parts into which a unit is cut where regions are halved.
pub const FINE: i64 = 0x100_0000;

/// Half of a unit in those parts.
pub const FINE_HALF: i64 = 0x80_0000;

/// A region of the tree, with its edges in 2^24ths of a unit: it can be halved that often before a middle
/// is rounded down.
#[derive(Debug, Clone, Copy, PartialEq, Eq, Structural)]
pub struct Region {
    pub min_x: i64,
    pub min_y: i64,
    pub max_x: i64,
    pub max_y: i64,
}

/// A box as a region.
pub open spec fn fine(b: Aabb) -> Region {
    Region {
        min_x: (b.min_x * FINE) as i64,
        min_y: (b.min_y * FINE) as i64,
        max_x: (b.max_x * FINE) as i64,
        max_y: (b.max_y * FINE) as i64,
    }
}

fn halfway(a: i64, b: i64) -> (m: i64)
    ensures
        m == middle(a as int, b as int),
        a <= b ==> a <= m <= b,
{
    let s: i128 = a as i128 + b as i128;
    let m: i128 = if s >= 0 {
        s / 2
    } else {
        -((1 - s) / 2)
    };
    m as i64
}

impl Region {
    /// The edges are in order.
    pub open spec fn wf(&self) -> bool {
        self.min_x <= self.max_x && self.min_y <= self.max_y
    }

    /// A box as a region.
    pub fn of(b: &Aabb) -> (r: Self)
        ensures
            r == fine(*b),
            b.wf() ==> r.wf(),
    {
        Region {
            min_x: b.min_x as i64 * FINE,
            min_y: b.min_y as i64 * FINE,
            max_x: b.max_x as i64 * FINE,
            max_y: b.max_y as i64 * FINE,
        }
    }

    /// The middle of the region.
    fn center(&self) -> (c: (i64, i64))
        ensures
            c.0 == middle(self.min_x as int, self.max_x as int),
            c.1 == middle(self.min_y as int, self.max_y as int),
            self.wf() ==> self.min_x <= c.0 <= self.max_x && self.min_y <= c.1 <= self.max_y,
    {
        (halfway(self.min_x, self.max_x), halfway(self.min_y, self.max_y))
    }
}

/// The region `a` contains the region `b`.
pub open spec fn covers(a: Region, b: Region) -> bool {
    a.min_x <= b.min_x && a.min_y <= b.min_y && a.max_x >= b.max_x && a.max_y >= b.max_y
}

/// The middle of a box in the parts that regions are measured in.
pub open spec fn centre_x(b: Aabb) -> int {
    (b.min_x + b.max_x) * FINE_HALF
}

pub open spec fn centre_y(b: Aabb) -> int {
    (b.min_y + b.max_y) * FINE_HALF
}

fn centre_of(b: &Aabb) -> (c: (i64, i64))
    ensures
        c.0 == centre_x(*b),
        c.1 == centre_y(*b),
        b.wf() ==> fine(*b).min_x <= c.0 <= fine(*b).max_x && fine(*b).min_y <= c.1 <= fine(
            *b,
        ).max_y,
{
    (
        (b.min_x as i64 + b.max_x as i64) * FINE_HALF,
        (b.min_y as i64 + b.max_y as i64) * FINE_HALF,
    )
}

/// A node of the tree: a leaf with the places of its items, or four quadrants.
#[derive(Debug)]
pub enum Node {
    Leaf { items: Vec<usize> },
    Branch { nw: Box<Node>, ne: Box<Node>, sw: Box<Node>, se: Box<Node> },
}

/// The items of a node in the order in which a query comes upon them.
pub open spec fn node_items(n: Node) -> Seq<usize>
    decreases n,
{
    match n {
        Node::Leaf { items } => items@,
        Node::Branch { nw, ne, sw, se } => node_items(*nw) + node_items(*ne) + node_items(*sw)
            + node_items(*se),
    }
}

pub open spec fn node_count(n: Node) -> nat
    decreases n,
{
    match n {
        Node::Leaf { items } => 1,
        Node::Branch { nw, ne, sw, se } => 1 + node_count(*nw) + node_count(*ne) + node_count(*sw)
            + node_count(*se),
    }
}

/// How many levels lie below a node.
pub open spec fn node_depth(n: Node) -> nat
    decreases n,
{
    match n {
        Node::Leaf { items } => 0,
        Node::Branch { nw, ne, sw, se } => 1 + deeper(
            deeper(node_depth(*nw), node_depth(*ne)),
            deeper(node_depth(*sw), node_depth(*se)),
        ),
    }
}

/// A leaf holds no more items than the cap, unless at most one level is left for it; what is divided
/// holds more.
pub open spec fn capped(n: Node, left: int, cap: nat) -> bool
    decreases n,
{
    match n {
        Node::Leaf { items } => items@.len() <= cap || left <= 1,
        Node::Branch { nw, ne, sw, se } => {
            &&& left > 0
            &&& node_items(n).len() > cap
            &&& capped(*nw, left - 1, cap)
            &&& capped(*ne, left - 1, cap)
            &&& capped(*sw, left - 1, cap)
            &&& capped(*se, left - 1, cap)
        },
    }
}

/// How a tree is divided, and which places each of its leaves holds.
pub enum Plan {
    Leaf { items: Seq<usize> },
    Branch { nw: Box<Plan>, ne: Box<Plan>, sw: Box<Plan>, se: Box<Plan> },
}

pub open spec fn plan_of(n: Node) -> Plan
    decreases n,
{
    match n {
        Node::Leaf { items } => Plan::Leaf { items: items@ },
        Node::Branch { nw, ne, sw, se } => Plan::Branch {
            nw: Box::new(plan_of(*nw)),
            ne: Box::new(plan_of(*ne)),
            sw: Box::new(plan_of(*sw)),
            se: Box::new(plan_of(*se)),
        },
    }
}

/// The places of a division in the order in which a query comes upon them.
pub open spec fn plan_items(p: Plan) -> Seq<usize>
    decreases p,
{
    match p {
        Plan::Leaf { items } => items,
        Plan::Branch { nw, ne, sw, se } => plan_items(*nw) + plan_items(*ne) + plan_items(*sw)
            + plan_items(*se),
    }
}

/// The box of a place has its middle in one quarter of a region; the dividing lines belong to the south
/// and to the east.
pub open spec fn goes_to(boxes: Seq<Aabb>, region: Region, south: bool, east: bool) -> spec_fn(
    usize,
) -> bool {
    let cx = middle(region.min_x as int, region.max_x as int);
    let cy = middle(region.min_y as int, region.max_y as int);
    |i: usize|
        {
            let b = boxes[i as int];
            &&& (centre_y(b) >= cy) == south
            &&& (centre_x(b) >= cx) == east
        }
}

/// At most one of the four holds anything.
pub open spec fn lone(a: Seq<usize>, b: Seq<usize>, c: Seq<usize>, d: Seq<usize>) -> bool {
    ||| b.len() == 0 && c.len() == 0 && d.len() == 0
    ||| a.len() == 0 && c.len() == 0 && d.len() == 0
    ||| a.len() == 0 && b.len() == 0 && d.len() == 0
    ||| a.len() == 0 && b.len() == 0 && c.len() == 0
}

/// The division of a region: one leaf while the places are few or no level is left, and also where a
/// last level would not part them; else the quarters, each with the places that go there, in their
/// order. `left` levels may lie below.
pub open spec fn planned(
    region: Region,
    idxs: Seq<usize>,
    boxes: Seq<Aabb>,
    left: nat,
    leaf_cap: nat,
) -> Plan
    decreases left,
{
    let nw = idxs.filter(goes_to(boxes, region, false, false));
    let ne = idxs.filter(goes_to(boxes, region, false, true));
    let sw = idxs.filter(goes_to(boxes, region, true, false));
    let se = idxs.filter(goes_to(boxes, region, true, true));
    if idxs.len() <= leaf_cap || left == 0 || (lone(nw, ne, sw, se) && left <= 1) {
        Plan::Leaf { items: idxs }
    } else {
        let below = (left - 1) as nat;
        Plan::Branch {
            nw: Box::new(planned(quarter(region, false, false), nw, boxes, below, leaf_cap)),
            ne: Box::new(planned(quarter(region, false, true), ne, boxes, below, leaf_cap)),
            sw: Box::new(planned(quarter(region, true, false), sw, boxes, below, leaf_cap)),
            se: Box::new(planned(quarter(region, true, true), se, boxes, below, leaf_cap)),
        }
    }
}

/// A node of the tree, to be drawn.
#[derive(Debug, Clone, Copy, PartialEq, Eq, Structural)]
pub struct AabbNodeInfo {
    pub region: Region,
    pub depth: u32,
    pub leaf: bool,
    /// How many items lie under the node.
    pub count: usize,
}

/// The nodes of a division, a branch before what lies under it.
pub open spec fn infos_of(p: Plan, region: Region, depth: int) -> Seq<AabbNodeInfo>
    decreases p,
{
    let own = AabbNodeInfo {
        region,
        depth: depth as u32,
        leaf: p is Leaf,
        count: plan_items(p).len() as usize,
    };
    match p {
        Plan::Leaf { items } => seq![own],
        Plan::Branch { nw, ne, sw, se } => seq![own] + infos_of(
            *nw,
            quarter(region, false, false),
            depth + 1,
        ) + infos_of(*ne, quarter(region, false, true), depth + 1) + infos_of(
            *sw,
            quarter(region, true, false),
            depth + 1,
        ) + infos_of(*se, quarter(region, true, true), depth + 1),
    }
}

pub open spec fn deeper(a: nat, b: nat) -> nat {
    if a < b {
        b
    } else {
        a
    }
}

/// A coordinate held to an interval.
pub open spec fn held(v: int, lo: int, hi: int) -> int {
    if v < lo {
        lo
    } else if v > hi {
        hi
    } else {
        v
    }
}

/// The middle of a box, held to the bounds.
pub open spec fn anchor_x(b: Aabb, bounds: Region) -> int {
    held(centre_x(b), bounds.min_x as int, bounds.max_x as int)
}

pub open spec fn anchor_y(b: Aabb, bounds: Region) -> int {
    held(centre_y(b), bounds.min_y as int, bounds.max_y as int)
}

/// The box reaches no further than `reach` from its middle as it is held to the bounds.
pub open spec fn within_reach(b: Aabb, bounds: Region, reach: int) -> bool {
    let (x, y) = (anchor_x(b, bounds), anchor_y(b, bounds));
    let f = fine(b);
    x - reach <= f.min_x && f.max_x <= x + reach && y - reach <= f.min_y && f.max_y <= y + reach
}

/// The middle of the box, held to the bounds, lies in the region.
pub open spec fn anchored_in(b: Aabb, bounds: Region, region: Region) -> bool {
    region.min_x <= anchor_x(b, bounds) <= region.max_x && region.min_y <= anchor_y(b, bounds)
        <= region.max_y
}

/// The four quarters of a region.
pub open spec fn quarter(region: Region, south: bool, east: bool) -> Region {
    let cx = middle(region.min_x as int, region.max_x as int) as i64;
    let cy = middle(region.min_y as int, region.max_y as int) as i64;
    Region {
        min_x: if east { cx } else { region.min_x },
        min_y: if south { cy } else { region.min_y },
        max_x: if east { region.max_x } else { cx },
        max_y: if south { region.max_y } else { cy },
    }
}

/// Every item of a node is anchored in the node's region, and each region is made of its quarters.
pub open spec fn filed(n: Node, region: Region, boxes: Seq<Aabb>, bounds: Region) -> bool
    decreases n,
{
    match n {
        Node::Leaf { items } => forall|k: int|
            0 <= k < items@.len() ==> (#[trigger] items@[k]) < boxes.len() && anchored_in(
                boxes[items@[k] as int],
                bounds,
                region,
            ),
        Node::Branch { nw, ne, sw, se } => {
            &&& filed(*nw, quarter(region, false, false), boxes, bounds)
            &&& filed(*ne, quarter(region, false, true), boxes, bounds)
            &&& filed(*sw, quarter(region, true, false), boxes, bounds)
            &&& filed(*se, quarter(region, true, true), boxes, bounds)
        },
    }
}

/// A tree over boxes with payloads.
#[derive(Debug)]
pub struct AabbTree<T> {
    pub bounds: Aabb,
    pub boxes: Vec<Aabb>,
    pub payloads: Vec<T>,
    pub root: Node,
    /// How far a box reaches at most from where it is filed, in the parts that regions are measured in.
    pub reach: i64,
}

/// An item's place is one whose box overlaps the query.
pub open spec fn hits(boxes: Seq<Aabb>, q: Aabb) -> spec_fn(usize) -> bool {
    |i: usize| overlaps(boxes[i as int], q)
}

/// Splits a node once it holds more than this many items.
pub const DEFAULT_LEAF_CAP: usize = 8;

/// The deepest level of a tree.
pub const DEFAULT_MAX_DEPTH: u32 = 8;

impl<T> AabbTree<T> {
    /// Every item is filed exactly once, where its middle lies, and the reach covers every box.
    pub open spec fn wf(&self) -> bool {
        &&& self.bounds.wf()
        &&& self.boxes@.len() == self.payloads@.len()
        &&& filed(self.root, fine(self.bounds), self.boxes@, fine(self.bounds))
        &&& 0 <= self.reach <= MAX_REACH
        &&& forall|i: int|
            0 <= i < self.boxes@.len() ==> within_reach(
                #[trigger] self.boxes@[i],
                fine(self.bounds),
                self.reach as int,
            )
        &&& node_items(self.root).to_multiset() == all_places(self.boxes@.len()).to_multiset()
    }

    /// The places of the items whose boxes overlap a query, in the order of the tree.
    pub open spec fn found(&self, q: Aabb) -> Seq<usize> {
        node_items(self.root).filter(hits(self.boxes@, q))
    }
}

/// No box reaches further than two widths of the plane.
pub const MAX_REACH: i64 = 0x200_0000_0000_0000;

/// The places `0 .. n`.
pub open spec fn all_places(n: nat) -> Seq<usize> {
    Seq::new(n, |i: int| i as usize)
}

/// How far the box reaches from where it is filed.
fn reach_of(b: &Aabb, bounds: &Aabb) -> (r: i64)
    requires
        bounds.wf(),
        b.wf(),
    ensures
        0 <= r <= MAX_REACH,
        within_reach(*b, fine(*bounds), r as int),
{
    let (cx, cy): (i64, i64) = centre_of(b);
    let f = Region::of(b);
    let area = Region::of(bounds);
    let x: i64 = hold(cx, area.min_x, area.max_x);
    let y: i64 = hold(cy, area.min_y, area.max_y);
    let a: i64 = later(x - f.min_x, f.max_x - x);
    let c: i64 = later(y - f.min_y, f.max_y - y);
    later(later(a, c), 0)
}

fn later(a: i64, b: i64) -> (m: i64)
    ensures
        m == greater(a as int, b as int),
{
    if a < b {
        b
    } else {
        a
    }
}

fn hold(v: i64, lo: i64, hi: i64) -> (r: i64)
    requires
        lo <= hi,
    ensures
        r == held(v as int, lo as int, hi as int),
{
    if v < lo {
        lo
    } else if v > hi {
        hi
    } else {
        v
    }
}

/// Files the items of a region: in one leaf while they are few or the tree is deep enough, else in
/// the quarter in which their middle lies.
fn subdivide(
    region: Region,
    idxs: Vec<usize>,
    boxes: &Vec<Aabb>,
    bounds: &Region,
    depth: u32,
    leaf_cap: usize,
    max_depth: u32,
) -> (n: Node)
    requires
        bounds.wf(),
        region.wf(),
        covers(*bounds, region),
        depth <= max_depth,
        forall|k: int|
            0 <= k < idxs@.len() ==> (#[trigger] idxs@[k]) < boxes@.len() && anchored_in(
                boxes@[idxs@[k] as int],
                *bounds,
                region,
            ),
    ensures
        filed(n, region, boxes@, *bounds),
        node_items(n).to_multiset() == idxs@.to_multiset(),
        node_depth(n) <= max_depth - depth,
        capped(n, max_depth - depth, leaf_cap as nat),
        plan_of(n) == planned(
            region,
            idxs@,
            boxes@,
            (max_depth - depth) as nat,
            leaf_cap as nat,
        ),
    decreases max_depth - depth,
{
    if idxs.len() <= leaf_cap || depth >= max_depth {
        return Node::Leaf { items: idxs };
    }
    let (cx, cy): (i64, i64) = region.center();
    let mut b0: Vec<usize> = Vec::new();
    let mut b1: Vec<usize> = Vec::new();
    let mut b2: Vec<usize> = Vec::new();
    let mut b3: Vec<usize> = Vec::new();
    let mut k: usize = 0;
    let ghost p0 = goes_to(boxes@, region, false, false);
    let ghost p1 = goes_to(boxes@, region, false, true);
    let ghost p2 = goes_to(boxes@, region, true, false);
    let ghost p3 = goes_to(boxes@, region, true, true);
    assert(idxs@.subrange(0, 0) =~= Seq::<usize>::empty());
    proof {
        reveal(Seq::filter);
        lemma_split_start(b0@, b1@, b2@, b3@, idxs@);
    }
    while k < idxs.len()
        invariant
            k <= idxs@.len(),
            bounds.wf(),
            region.wf(),
            covers(*bounds, region),
            cx == middle(region.min_x as int, region.max_x as int),
            cy == middle(region.min_y as int, region.max_y as int),
            forall|j: int|
                0 <= j < idxs@.len() ==> (#[trigger] idxs@[j]) < boxes@.len() && anchored_in(
                    boxes@[idxs@[j] as int],
                    *bounds,
                    region,
                ),
            filed_all(b0@, quarter(region, false, false), boxes@, *bounds),
            filed_all(b1@, quarter(region, false, true), boxes@, *bounds),
            filed_all(b2@, quarter(region, true, false), boxes@, *bounds),
            filed_all(b3@, quarter(region, true, true), boxes@, *bounds),
            (b0@ + b1@ + b2@ + b3@).to_multiset() == idxs@.subrange(0, k as int).to_multiset(),
            p0 == goes_to(boxes@, region, false, false),
            p1 == goes_to(boxes@, region, false, true),
            p2 == goes_to(boxes@, region, true, false),
            p3 == goes_to(boxes@, region, true, true),
            b0@ == idxs@.subrange(0, k as int).filter(p0),
            b1@ == idxs@.subrange(0, k as int).filter(p1),
            b2@ == idxs@.subrange(0, k as int).filter(p2),
            b3@ == idxs@.subrange(0, k as int).filter(p3),
        decreases idxs@.len() - k,
    {
        let i: usize = idxs[k];
        let (bx, by): (i64, i64) = centre_of(&boxes[i]);
        proof {
            assert(idxs@.subrange(0, k + 1) =~= idxs@.subrange(0, k as int).push(i));
            lemma_split_step(b0@, b1@, b2@, b3@, idxs@.subrange(0, k as int), i);
            lemma_filter_push(idxs@.subrange(0, k as int), i, p0);
            lemma_filter_push(idxs@.subrange(0, k as int), i, p1);
            lemma_filter_push(idxs@.subrange(0, k as int), i, p2);
            lemma_filter_push(idxs@.subrange(0, k as int), i, p3);
        }
        let east: bool = bx >= cx;
        let south: bool = by >= cy;
        if south {
            if east {
                b3.push(i);
            } else {
                b2.push(i);
            }
        } else {
            if east {
                b1.push(i);
            } else {
                b0.push(i);
            }
        }
        k = k + 1;
    }
    assert(idxs@.subrange(0, k as int) =~= idxs@);
    let mut nonempty: u32 = 0;
    if b0.len() > 0 {
        nonempty = nonempty + 1;
    }
    if b1.len() > 0 {
        nonempty = nonempty + 1;
    }
    if b2.len() > 0 {
        nonempty = nonempty + 1;
    }
    if b3.len() > 0 {
        nonempty = nonempty + 1;
    }
    if nonempty <= 1 && depth + 1 >= max_depth {
        return Node::Leaf { items: idxs };
    }
    let q0 = Region { min_x: region.min_x, min_y: region.min_y, max_x: cx, max_y: cy };
    let q1 = Region { min_x: cx, min_y: region.min_y, max_x: region.max_x, max_y: cy };
    let q2 = Region { min_x: region.min_x, min_y: cy, max_x: cx, max_y: region.max_y };
    let q3 = Region { min_x: cx, min_y: cy, max_x: region.max_x, max_y: region.max_y };
    let ghost (g0, g1, g2, g3) = (b0@, b1@, b2@, b3@);
    let nw = subdivide(q0, b0, boxes, bounds, depth + 1, leaf_cap, max_depth);
    let ne = subdivide(q1, b1, boxes, bounds, depth + 1, leaf_cap, max_depth);
    let sw = subdivide(q2, b2, boxes, bounds, depth + 1, leaf_cap, max_depth);
    let se = subdivide(q3, b3, boxes, bounds, depth + 1, leaf_cap, max_depth);
    proof {
        lemma_join(
            node_items(nw),
            node_items(ne),
            node_items(sw),
            node_items(se),
            g0,
            g1,
            g2,
            g3,
        );
    }
    let n = Node::Branch {
        nw: Box::new(nw),
        ne: Box::new(ne),
        sw: Box::new(sw),
        se: Box::new(se),
    };
    proof {
        broadcast use vstd::seq_lib::group_to_multiset_ensures;

        assert(node_items(n).to_multiset().len() == node_items(n).len());
        assert(idxs@.to_multiset().len() == idxs@.len());
    }
    n
}

spec fn filed_all(items: Seq<usize>, region: Region, boxes: Seq<Aabb>, bounds: Region) -> bool {
    forall|k: int|
        0 <= k < items.len() ==> (#[trigger] items[k]) < boxes.len() && anchored_in(
            boxes[items[k] as int],
            bounds,
            region,
        )
}

proof fn lemma_split_start(
    a: Seq<usize>,
    b: Seq<usize>,
    c: Seq<usize>,
    d: Seq<usize>,
    s: Seq<usize>,
)
    requires
        a.len() == 0,
        b.len() == 0,
        c.len() == 0,
        d.len() == 0,
    ensures
        (a + b + c + d).to_multiset() == s.subrange(0, 0).to_multiset(),
{
    assert(a + b + c + d =~= s.subrange(0, 0));
}

proof fn lemma_split_step(
    a: Seq<usize>,
    b: Seq<usize>,
    c: Seq<usize>,
    d: Seq<usize>,
    s: Seq<usize>,
    i: usize,
)
    requires
        (a + b + c + d).to_multiset() == s.to_multiset(),
    ensures
        (a.push(i) + b + c + d).to_multiset() == s.push(i).to_multiset(),
        (a + b.push(i) + c + d).to_multiset() == s.push(i).to_multiset(),
        (a + b + c.push(i) + d).to_multiset() == s.push(i).to_multiset(),
        (a + b + c + d.push(i)).to_multiset() == s.push(i).to_multiset(),
{
    broadcast use vstd::seq_lib::group_to_multiset_ensures;

    let all = a + b + c + d;
    assert(a.push(i) + b + c + d =~= all.insert(a.len() as int, i));
    assert(a + b.push(i) + c + d =~= all.insert((a.len() + b.len()) as int, i));
    assert(a + b + c.push(i) + d =~= all.insert((a.len() + b.len() + c.len()) as int, i));
    assert(a + b + c + d.push(i) =~= all.push(i));
}

proof fn lemma_join(
    a: Seq<usize>,
    b: Seq<usize>,
    c: Seq<usize>,
    d: Seq<usize>,
    a2: Seq<usize>,
    b2: Seq<usize>,
    c2: Seq<usize>,
    d2: Seq<usize>,
)
    requires
        a.to_multiset() == a2.to_multiset(),
        b.to_multiset() == b2.to_multiset(),
        c.to_multiset() == c2.to_multiset(),
        d.to_multiset() == d2.to_multiset(),
    ensures
        (a + b + c + d).to_multiset() == (a2 + b2 + c2 + d2).to_multiset(),
{
    vstd::seq_lib::lemma_multiset_commutative(a, b);
    vstd::seq_lib::lemma_multiset_commutative(a + b, c);
    vstd::seq_lib::lemma_multiset_commutative(a + b + c, d);
    vstd::seq_lib::lemma_multiset_commutative(a2, b2);
    vstd::seq_lib::lemma_multiset_commutative(a2 + b2, c2);
    vstd::seq_lib::lemma_multiset_commutative(a2 + b2 + c2, d2);
}

impl<T> AabbTree<T> {
    /// Builds a tree over items. One whose middle lies outside the bounds is filed at their edge,
    /// so it is found all the same.
    pub fn build(bounds: Aabb, items: Vec<(Aabb, T)>) -> (t: Self)
        requires
            bounds.wf(),
            forall|i: int| 0 <= i < items@.len() ==> (#[trigger] items@[i]).0.wf(),
        ensures
            t.wf(),
            t.bounds == bounds,
            t.boxes@ == items@.map_values(|it: (Aabb, T)| it.0),
            t.payloads@ == items@.map_values(|it: (Aabb, T)| it.1),
            node_depth(t.root) <= DEFAULT_MAX_DEPTH,
            capped(t.root, DEFAULT_MAX_DEPTH as int, DEFAULT_LEAF_CAP as nat),
            plan_of(t.root) == planned(
                fine(bounds),
                all_places(items@.len()),
                t.boxes@,
                DEFAULT_MAX_DEPTH as nat,
                DEFAULT_LEAF_CAP as nat,
            ),
    {
        AabbTree::build_with(bounds, items, DEFAULT_LEAF_CAP, DEFAULT_MAX_DEPTH)
    }

    /// Builds a tree with a given capacity of its leaves and a given greatest depth.
    pub fn build_with(
        bounds: Aabb,
        items: Vec<(Aabb, T)>,
        leaf_cap: usize,
        max_depth: u32,
    ) -> (t: Self)
        requires
            bounds.wf(),
            forall|i: int| 0 <= i < items@.len() ==> (#[trigger] items@[i]).0.wf(),
        ensures
            t.wf(),
            t.bounds == bounds,
            t.boxes@ == items@.map_values(|it: (Aabb, T)| it.0),
            t.payloads@ == items@.map_values(|it: (Aabb, T)| it.1),
            node_depth(t.root) <= max_depth,
            capped(
                t.root,
                max_depth as int,
                if leaf_cap < 1 {
                    1nat
                } else {
                    leaf_cap as nat
                },
            ),
            plan_of(t.root) == planned(
                fine(bounds),
                all_places(items@.len()),
                t.boxes@,
                max_depth as nat,
                if leaf_cap < 1 {
                    1nat
                } else {
                    leaf_cap as nat
                },
            ),
    {
        let ghost given = items@;
        let mut boxes: Vec<Aabb> = Vec::new();
        let mut payloads: Vec<T> = Vec::new();
        let mut all: Vec<usize> = Vec::new();
        let mut reach: i64 = 0;
        for item in rest: items
            invariant
                rest.seq() == given,
                bounds.wf(),
                forall|i: int| 0 <= i < given.len() ==> (#[trigger] given[i]).0.wf(),
                boxes@ == given.subrange(0, rest.index()).map_values(|it: (Aabb, T)| it.0),
                payloads@ == given.subrange(0, rest.index()).map_values(|it: (Aabb, T)| it.1),
                all@ == all_places(rest.index() as nat),
                0 <= reach <= MAX_REACH,
                forall|i: int|
                    0 <= i < rest.index() ==> within_reach(
                        #[trigger] boxes@[i],
                        fine(bounds),
                        reach as int,
                    ),
        {
            let (b, p): (Aabb, T) = item;
            let ghost taken = rest.index();
            assert(given[taken] == (b, p));
            let r: i64 = reach_of(&b, &bounds);
            let ghost before = boxes@;
            if reach < r {
                reach = r;
            }
            all.push(boxes.len());
            boxes.push(b);
            payloads.push(p);
            proof {
                let g = given.subrange(0, taken + 1);
                assert(boxes@ =~= g.map_values(|it: (Aabb, T)| it.0));
                assert(payloads@ =~= g.map_values(|it: (Aabb, T)| it.1));
                assert(all@ =~= all_places((taken + 1) as nat));
                assert forall|i: int| 0 <= i < taken + 1 implies within_reach(
                    #[trigger] boxes@[i],
                    fine(bounds),
                    reach as int,
                ) by {
                    if i < taken {
                        assert(boxes@[i] == before[i]);
                    }
                }
            }
        }
        assert(given.subrange(0, given.len() as int) =~= given);
        let cap: usize = if leaf_cap < 1 {
            1
        } else {
            leaf_cap
        };
        let area = Region::of(&bounds);
        let root = subdivide(area, all, &boxes, &area, 0, cap, max_depth);
        AabbTree { bounds, boxes, payloads, root, reach }
    }

    pub fn len(&self) -> (n: usize)
        ensures
            n == self.boxes@.len(),
    {
        self.boxes.len()
    }

    pub fn is_empty(&self) -> (r: bool)
        ensures
            r == (self.boxes@.len() == 0),
    {
        self.boxes.len() == 0
    }

    /// The bounds that the tree was built over.
    pub fn bounds(&self) -> (b: Aabb)
        ensures
            b == self.bounds,
    {
        self.bounds
    }

    /// The places of all items whose boxes overlap the query.
    pub fn query_indices(&self, q: &Aabb) -> (r: Vec<usize>)
        requires
            self.wf(),
        ensures
            r@ == self.found(*q),
    {
        let mut out: Vec<usize> = Vec::new();
        self.query_into(&self.root, Region::of(&self.bounds), q, &mut out);
        assert(out@ =~= self.found(*q));
        out
    }

    /// The payloads of all items whose boxes overlap the query.
    pub fn query(&self, q: &Aabb) -> (r: Vec<T>) where T: Clone
        requires
            self.wf(),
        ensures
            r@.len() == self.found(*q).len(),
            forall|k: int|
                0 <= k < r@.len() ==> cloned::<T>(
                    self.payloads@[self.found(*q)[k] as int],
                    #[trigger] r@[k],
                ),
    {
        let places = self.query_indices(q);
        let mut out: Vec<T> = Vec::new();
        let mut k: usize = 0;
        while k < places.len()
            invariant
                k <= places@.len(),
                self.wf(),
                places@ == self.found(*q),
                out@.len() == k,
                forall|j: int|
                    0 <= j < k ==> cloned::<T>(
                        self.payloads@[places@[j] as int],
                        #[trigger] out@[j],
                    ),
            decreases places@.len() - k,
        {
            proof {
                law_query_is_complete(*self, *q, places@[k as int]);
                assert(places@.contains(places@[k as int]));
            }
            let i: usize = places[k];
            out.push(self.payloads[i].clone());
            k = k + 1;
        }
        out
    }

    /// The candidates for a circle: all items whose boxes overlap the square around it.
    pub fn query_circle(&self, x: i32, y: i32, r: i32) -> (out: Vec<T>) where T: Clone
        requires
            self.wf(),
            i32::MIN <= x - r <= i32::MAX,
            i32::MIN <= x + r <= i32::MAX,
            i32::MIN <= y - r <= i32::MAX,
            i32::MIN <= y + r <= i32::MAX,
        ensures
            ({
                let q = Aabb {
                    min_x: (x - r) as i32,
                    min_y: (y - r) as i32,
                    max_x: (x + r) as i32,
                    max_y: (y + r) as i32,
                };
                &&& out@.len() == self.found(q).len()
                &&& forall|k: int|
                    0 <= k < out@.len() ==> cloned::<T>(
                        self.payloads@[self.found(q)[k] as int],
                        #[trigger] out@[k],
                    )
            }),
    {
        self.query(&Aabb::around(x, y, r))
    }

    /// Visits a node unless its region, widened by the reach, misses the query.
    fn query_into(&self, node: &Node, region: Region, q: &Aabb, out: &mut Vec<usize>)
        requires
            filed(*node, region, self.boxes@, fine(self.bounds)),
            region.wf(),
            0 <= self.reach <= MAX_REACH,
            forall|i: int|
                0 <= i < self.boxes@.len() ==> within_reach(
                    #[trigger] self.boxes@[i],
                    fine(self.bounds),
                    self.reach as int,
                ),
        ensures
            final(out)@ == old(out)@ + node_items(*node).filter(hits(self.boxes@, *q)),
        decreases *node,
    {
        let ghost p = hits(self.boxes@, *q);
        let ghost before = out@;
        let r: i128 = self.reach as i128;
        let f = Region::of(q);
        let near: bool = region.min_x as i128 - r <= f.max_x as i128 && region.max_x as i128 + r
            >= f.min_x as i128 && region.min_y as i128 - r <= f.max_y as i128 && region.max_y
            as i128 + r >= f.min_y as i128;
        if !near {
            proof {
                lemma_nothing_near(*node, region, self.boxes@, fine(self.bounds), r as int, *q);
                lemma_filter_none(node_items(*node), p);
                assert(before + Seq::<usize>::empty() =~= before);
            }
            return ;
        }
        match node {
            Node::Leaf { items } => {
                let mut k: usize = 0;
                proof {
                    reveal(Seq::filter);
                    assert(items@.subrange(0, 0) =~= Seq::<usize>::empty());
                    assert(before + Seq::<usize>::empty() =~= before);
                }
                while k < items.len()
                    invariant
                        k <= items@.len(),
                        forall|j: int|
                            0 <= j < items@.len() ==> (#[trigger] items@[j]) < self.boxes@.len(),
                        p == hits(self.boxes@, *q),
                        out@ == before + items@.subrange(0, k as int).filter(p),
                    decreases items@.len() - k,
                {
                    let i: usize = items[k];
                    let ghost so_far = items@.subrange(0, k as int);
                    proof {
                        assert(items@.subrange(0, k + 1) =~= so_far.push(i));
                        assert(p(i) == overlaps(self.boxes@[i as int], *q));
                        lemma_filter_push(so_far, i, p);
                    }
                    if self.boxes[i].intersects(q) {
                        out.push(i);
                        assert(out@ =~= before + so_far.filter(p).push(i));
                    }
                    k = k + 1;
                }
                assert(items@.subrange(0, k as int) =~= items@);
            },
            Node::Branch { nw, ne, sw, se } => {
                let (cx, cy): (i64, i64) = region.center();
                let q0 = Region { min_x: region.min_x, min_y: region.min_y, max_x: cx, max_y: cy };
                let q1 = Region { min_x: cx, min_y: region.min_y, max_x: region.max_x, max_y: cy };
                let q2 = Region { min_x: region.min_x, min_y: cy, max_x: cx, max_y: region.max_y };
                let q3 = Region { min_x: cx, min_y: cy, max_x: region.max_x, max_y: region.max_y };
                self.query_into(nw, q0, q, out);
                self.query_into(ne, q1, q, out);
                self.query_into(sw, q2, q, out);
                self.query_into(se, q3, q, out);
                proof {
                    let (a, b, c, d) = (
                        node_items(**nw),
                        node_items(**ne),
                        node_items(**sw),
                        node_items(**se),
                    );
                    Seq::filter_distributes_over_add(a, b, p);
                    Seq::filter_distributes_over_add(a + b, c, p);
                    Seq::filter_distributes_over_add(a + b + c, d, p);
                    assert(out@ =~= before + (a.filter(p) + b.filter(p) + c.filter(p) + d.filter(
                        p,
                    )));
                }
            },
        }
    }

    /// The nodes of the tree, to be drawn: a branch before what lies under it.
    pub fn node_boxes(&self) -> (r: Vec<AabbNodeInfo>)
        requires
            self.bounds.wf(),
            node_depth(self.root) < u32::MAX,
            node_items(self.root).len() <= usize::MAX,
        ensures
            r@ == infos_of(plan_of(self.root), fine(self.bounds), 0),
    {
        let mut out: Vec<AabbNodeInfo> = Vec::new();
        let _ = push_infos(&self.root, Region::of(&self.bounds), 0, &mut out);
        assert(out@ =~= infos_of(plan_of(self.root), fine(self.bounds), 0));
        out
    }

    /// The number of nodes, and how deep the tree is.
    pub fn stats(&self) -> (r: (usize, u32))
        requires
            node_count(self.root) <= usize::MAX,
            node_depth(self.root) <= u32::MAX,
        ensures
            r.0 == node_count(self.root),
            r.1 == node_depth(self.root),
    {
        node_stats(&self.root)
    }
}

fn push_infos(n: &Node, region: Region, depth: u32, out: &mut Vec<AabbNodeInfo>) -> (count: usize)
    requires
        region.wf(),
        depth + node_depth(*n) < u32::MAX,
        node_items(*n).len() <= usize::MAX,
    ensures
        count == node_items(*n).len(),
        final(out)@ == old(out)@ + infos_of(plan_of(*n), region, depth as int),
    decreases *n,
{
    let ghost before = out@;
    proof {
        lemma_plan_items(*n);
    }
    match n {
        Node::Leaf { items } => {
            out.push(AabbNodeInfo { region, depth, leaf: true, count: items.len() });
            assert(out@ =~= before + infos_of(plan_of(*n), region, depth as int));
            items.len()
        },
        Node::Branch { nw, ne, sw, se } => {
            let at: usize = out.len();
            out.push(AabbNodeInfo { region, depth, leaf: false, count: 0 });
            let (cx, cy): (i64, i64) = region.center();
            let q0 = Region { min_x: region.min_x, min_y: region.min_y, max_x: cx, max_y: cy };
            let q1 = Region { min_x: cx, min_y: region.min_y, max_x: region.max_x, max_y: cy };
            let q2 = Region { min_x: region.min_x, min_y: cy, max_x: cx, max_y: region.max_y };
            let q3 = Region { min_x: cx, min_y: cy, max_x: region.max_x, max_y: region.max_y };
            let c0: usize = push_infos(nw, q0, depth + 1, out);
            let c1: usize = push_infos(ne, q1, depth + 1, out);
            let c2: usize = push_infos(sw, q2, depth + 1, out);
            let c3: usize = push_infos(se, q3, depth + 1, out);
            let count: usize = c0 + c1 + c2 + c3;
            let own = AabbNodeInfo { region, depth, leaf: false, count };
            out.set(at, own);
            proof {
                let (i0, i1, i2, i3) = (
                    infos_of(plan_of(**nw), q0, depth + 1),
                    infos_of(plan_of(**ne), q1, depth + 1),
                    infos_of(plan_of(**sw), q2, depth + 1),
                    infos_of(plan_of(**se), q3, depth + 1),
                );
                assert(q0 == quarter(region, false, false));
                assert(q1 == quarter(region, false, true));
                assert(q2 == quarter(region, true, false));
                assert(q3 == quarter(region, true, true));
                assert(infos_of(plan_of(*n), region, depth as int) == seq![own] + i0 + i1 + i2 + i3);
                assert(out@ =~= before + (seq![own] + i0 + i1 + i2 + i3));
            }
            count
        },
    }
}

fn node_stats(n: &Node) -> (r: (usize, u32))
    requires
        node_count(*n) <= usize::MAX,
        node_depth(*n) <= u32::MAX,
    ensures
        r.0 == node_count(*n),
        r.1 == node_depth(*n),
    decreases *n,
{
    match n {
        Node::Leaf { items } => (1, 0),
        Node::Branch { nw, ne, sw, se } => {
            let (c0, d0): (usize, u32) = node_stats(nw);
            let (c1, d1): (usize, u32) = node_stats(ne);
            let (c2, d2): (usize, u32) = node_stats(sw);
            let (c3, d3): (usize, u32) = node_stats(se);
            let north: u32 = if d0 < d1 { d1 } else { d0 };
            let south: u32 = if d2 < d3 { d3 } else { d2 };
            (1 + c0 + c1 + c2 + c3, 1 + if north < south { south } else { north })
        },
    }
}

/// A tree has as many items as boxes.
pub proof fn lemma_item_count<T>(t: AabbTree<T>)
    requires
        t.wf(),
    ensures
        node_items(t.root).len() == t.boxes@.len(),
        node_items(t.root).len() <= usize::MAX,
{
    broadcast use vstd::seq_lib::group_to_multiset_ensures;

    assert(node_items(t.root).to_multiset().len() == node_items(t.root).len());
    assert(all_places(t.boxes@.len()).to_multiset().len() == all_places(t.boxes@.len()).len());
    assert(t.boxes.len() <= usize::MAX);
}

/// Nothing that is filed in a region reaches a query which the widened region misses.
proof fn lemma_nothing_near(
    n: Node,
    region: Region,
    boxes: Seq<Aabb>,
    bounds: Region,
    reach: int,
    q: Aabb,
)
    requires
        filed(n, region, boxes, bounds),
        region.wf(),
        forall|i: int|
            0 <= i < boxes.len() ==> within_reach(#[trigger] boxes[i], bounds, reach),
        reach >= 0,
        !(region.min_x - reach <= fine(q).max_x && region.max_x + reach >= fine(q).min_x
            && region.min_y - reach <= fine(q).max_y && region.max_y + reach >= fine(q).min_y),
    ensures
        forall|k: int|
            0 <= k < node_items(n).len() ==> !hits(boxes, q)(#[trigger] node_items(n)[k]),
    decreases n,
{
    lemma_filed_items(n, region, boxes, bounds);
    assert forall|k: int| 0 <= k < node_items(n).len() implies !hits(boxes, q)(
        #[trigger] node_items(n)[k],
    ) by {
        let b = boxes[node_items(n)[k] as int];
        assert(within_reach(b, bounds, reach));
    }
}

/// The items of a node are anchored in its region, however deep they lie.
proof fn lemma_filed_items(n: Node, region: Region, boxes: Seq<Aabb>, bounds: Region)
    requires
        filed(n, region, boxes, bounds),
        region.wf(),
    ensures
        forall|k: int|
            0 <= k < node_items(n).len() ==> (#[trigger] node_items(n)[k]) < boxes.len()
                && anchored_in(boxes[node_items(n)[k] as int], bounds, region),
    decreases n,
{
    match n {
        Node::Leaf { items } => {},
        Node::Branch { nw, ne, sw, se } => {
            lemma_filed_items(*nw, quarter(region, false, false), boxes, bounds);
            lemma_filed_items(*ne, quarter(region, false, true), boxes, bounds);
            lemma_filed_items(*sw, quarter(region, true, false), boxes, bounds);
            lemma_filed_items(*se, quarter(region, true, true), boxes, bounds);
            let (a, b, c, d) = (
                node_items(*nw),
                node_items(*ne),
                node_items(*sw),
                node_items(*se),
            );
            assert forall|k: int| 0 <= k < node_items(n).len() implies (
            #[trigger] node_items(n)[k]) < boxes.len() && anchored_in(
                boxes[node_items(n)[k] as int],
                bounds,
                region,
            ) by {
                if k < a.len() {
                    assert(node_items(n)[k] == a[k]);
                } else if k < a.len() + b.len() {
                    assert(node_items(n)[k] == b[k - a.len()]);
                } else if k < a.len() + b.len() + c.len() {
                    assert(node_items(n)[k] == c[k - a.len() - b.len()]);
                } else {
                    assert(node_items(n)[k] == d[k - a.len() - b.len() - c.len()]);
                }
            }
        },
    }
}

/// A query misses nothing and invents nothing: a place is among the results exactly when its box
/// overlaps the query, and it occurs once.
pub proof fn law_query_is_complete<T>(t: AabbTree<T>, q: Aabb, i: usize)
    requires
        t.wf(),
    ensures
        t.found(q).contains(i) <==> i < t.boxes@.len() && overlaps(t.boxes@[i as int], q),
        t.found(q).no_duplicates(),
{
    broadcast use vstd::seq_lib::group_to_multiset_ensures;

    let all = node_items(t.root);
    let places = all_places(t.boxes@.len());
    let p = hits(t.boxes@, q);
    assert(p(i) == overlaps(t.boxes@[i as int], q));
    assert(t.boxes.len() == t.boxes@.len());
    assert(places.no_duplicates());
    lemma_same_multiset(all, places, i);
    if i < t.boxes@.len() {
        assert(places[i as int] == i);
    }
    assert(all.contains(i) <==> i < t.boxes@.len());
    if all.contains(i) && p(i) {
        let k = choose|k: int| 0 <= k < all.len() && all[k] == i;
        all.lemma_filter_contains(p, k);
    }
    if t.found(q).contains(i) {
        all.lemma_filter_contains_rev(p, i);
        let k = choose|k: int| 0 <= k < t.found(q).len() && t.found(q)[k] == i;
        all.lemma_filter_pred(p, k);
    }
    lemma_permuted_distinct(all, places);
    lemma_filter_distinct(all, p);
}

proof fn lemma_same_multiset(a: Seq<usize>, b: Seq<usize>, i: usize)
    requires
        a.to_multiset() == b.to_multiset(),
    ensures
        a.contains(i) <==> b.contains(i),
{
    broadcast use vstd::seq_lib::group_to_multiset_ensures;

    vstd::seq_lib::to_multiset_contains(a, i);
    vstd::seq_lib::to_multiset_contains(b, i);
}

proof fn lemma_permuted_distinct(a: Seq<usize>, b: Seq<usize>)
    requires
        a.to_multiset() == b.to_multiset(),
        b.no_duplicates(),
    ensures
        a.no_duplicates(),
{
    b.lemma_multiset_has_no_duplicates();
    assert forall|x: usize| a.to_multiset().contains(x) implies a.to_multiset().count(x) == 1 by {
        assert(b.to_multiset().contains(x));
    }
    a.lemma_multiset_has_no_duplicates_conv();
}

pub proof fn lemma_filter_distinct(a: Seq<usize>, p: spec_fn(usize) -> bool)
    requires
        a.no_duplicates(),
    ensures
        a.filter(p).no_duplicates(),
    decreases a.len(),
{
    reveal(Seq::filter);
    if a.len() > 0 {
        let rest = a.drop_last();
        lemma_filter_distinct(rest, p);
        if p(a.last()) && rest.filter(p).contains(a.last()) {
            rest.lemma_filter_contains_rev(p, a.last());
            let k = choose|k: int| 0 <= k < rest.len() && rest[k] == a.last();
            assert(a[k] == a[a.len() - 1]);
        }
        let f = rest.filter(p);
        assert forall|x: int, y: int|
            0 <= x < a.filter(p).len() && 0 <= y < a.filter(p).len() && x != y implies a.filter(
            p,
        )[x] != a.filter(p)[y] by {
            if p(a.last()) {
                assert(a.filter(p) == f.push(a.last()));
                if x == f.len() {
                    assert(f.contains(f[y]));
                } else if y == f.len() {
                    assert(f.contains(f[x]));
                }
            }
        }
    }
}

proof fn lemma_plan_items(n: Node)
    ensures
        plan_items(plan_of(n)) == node_items(n),
    decreases n,
{
    match n {
        Node::Leaf { items } => {},
        Node::Branch { nw, ne, sw, se } => {
            lemma_plan_items(*nw);
            lemma_plan_items(*ne);
            lemma_plan_items(*sw);
            lemma_plan_items(*se);
        },
    }
}

/// The order of the results is settled by the boxes alone: trees that were built over the same boxes
/// answer every query with the same places in the same order.
pub proof fn law_query_order_is_deterministic<T, U>(
    a: AabbTree<T>,
    b: AabbTree<U>,
    left: nat,
    leaf_cap: nat,
    q: Aabb,
)
    requires
        a.bounds == b.bounds,
        a.boxes@ == b.boxes@,
        plan_of(a.root) == planned(fine(a.bounds), all_places(a.boxes@.len()), a.boxes@, left, leaf_cap),
        plan_of(b.root) == planned(fine(b.bounds), all_places(b.boxes@.len()), b.boxes@, left, leaf_cap),
    ensures
        a.found(q) == b.found(q),
{
    lemma_plan_items(a.root);
    lemma_plan_items(b.root);
}

/// Two boxes overlap exactly where they have a point in common, edges included; and one holds another exactly where it holds
/// every point of it.
pub proof fn law_boxes_hold_points(a: Aabb, b: Aabb)
    requires
        a.min_x <= a.max_x && a.min_y <= a.max_y,
        b.min_x <= b.max_x && b.min_y <= b.max_y,
    ensures
        overlaps(a, b) <==> exists|x: int, y: int|
            #![trigger corner_of(x, y)]
            a.min_x <= x <= a.max_x && a.min_y <= y <= a.max_y && b.min_x <= x <= b.max_x && b.min_y <= y
                <= b.max_y && corner_of(x, y) == (x, y),
        encloses(a, b) <==> forall|x: int, y: int|
            #![trigger corner_of(x, y)]
            b.min_x <= x <= b.max_x && b.min_y <= y <= b.max_y && corner_of(x, y) == (x, y) ==> a.min_x
                <= x <= a.max_x && a.min_y <= y <= a.max_y,
        overlaps(a, b) == overlaps(b, a),
{
    if overlaps(a, b) {
        let x = greater(a.min_x as int, b.min_x as int);
        let y = greater(a.min_y as int, b.min_y as int);
        assert(corner_of(x, y) == (x, y));
    }
    if forall|x: int, y: int|
        #![trigger corner_of(x, y)]
        b.min_x <= x <= b.max_x && b.min_y <= y <= b.max_y && corner_of(x, y) == (x, y) ==> a.min_x <= x
            <= a.max_x && a.min_y <= y <= a.max_y {
        assert(corner_of(b.min_x as int, b.min_y as int) == (b.min_x as int, b.min_y as int));
        assert(corner_of(b.max_x as int, b.max_y as int) == (b.max_x as int, b.max_y as int));
    }
}

/// A point of the plane.
pub open spec fn corner_of(x: int, y: int) -> (int, int) {
    (x, y)
}

/// The box around two boxes holds both, and each of its edges is that of one of them.
pub proof fn law_hull_is_the_smallest(a: Aabb, b: Aabb)
    ensures
        encloses(hull(a, b), a),
        encloses(hull(a, b), b),
        hull(a, b).min_x == a.min_x || hull(a, b).min_x == b.min_x,
        hull(a, b).min_y == a.min_y || hull(a, b).min_y == b.min_y,
        hull(a, b).max_x == a.max_x || hull(a, b).max_x == b.max_x,
        hull(a, b).max_y == a.max_y || hull(a, b).max_y == b.max_y,
        hull(a, b) == hull(b, a),
{
}

/// A box that is grown holds a point exactly where it was at most that far from it, on every side.
pub proof fn law_grown_boxes(b: Aabb, pad: int, x: int, y: int)
    requires
        growable(b, pad),
    ensures
        ({
            let g = grown(b, pad);
            &&& g.min_x <= x <= g.max_x <==> -pad <= x - b.min_x && x - b.max_x <= pad
            &&& g.min_y <= y <= g.max_y <==> -pad <= y - b.min_y && y - b.max_y <= pad
        }),
{
}

/// The quarters of a region tile it: they meet in its middle, north and south of it and west and east of it, and each corner of
/// the region is that of its own quarter.
pub proof fn law_quarters_tile_the_region(r: Region, cx: int, cy: int)
    requires
        r.min_x <= r.max_x,
        r.min_y <= r.max_y,
        2 * cx == r.min_x + r.max_x,
        2 * cy == r.min_y + r.max_y,
    ensures
        ({
            let (nw, ne) = (quarter(r, false, false), quarter(r, false, true));
            let (sw, se) = (quarter(r, true, false), quarter(r, true, true));
            &&& nw.min_x == r.min_x && nw.min_y == r.min_y && nw.max_x == cx && nw.max_y == cy
            &&& ne.min_x == cx && ne.min_y == r.min_y && ne.max_x == r.max_x && ne.max_y == cy
            &&& sw.min_x == r.min_x && sw.min_y == cy && sw.max_x == cx && sw.max_y == r.max_y
            &&& se.min_x == cx && se.min_y == cy && se.max_x == r.max_x && se.max_y == r.max_y
        }),
{
}

/// An item is filed in the quarter that its middle lies in: in the south where it is no further north than the middle of the
/// region, in the east where it is no further west. It goes to exactly one of the four.
pub proof fn law_items_go_by_their_middle(boxes: Seq<Aabb>, r: Region, i: usize, cx: int, cy: int)
    requires
        2 * cx == r.min_x + r.max_x,
        2 * cy == r.min_y + r.max_y,
    ensures
        ({
            let b = boxes[i as int];
            let east = (b.min_x + b.max_x) * 0x100_0000 >= 2 * cx;
            let south = (b.min_y + b.max_y) * 0x100_0000 >= 2 * cy;
            &&& goes_to(boxes, r, south, east)(i)
            &&& !goes_to(boxes, r, !south, east)(i)
            &&& !goes_to(boxes, r, south, !east)(i)
            &&& !goes_to(boxes, r, !south, !east)(i)
        }),
{
}

/// A region is divided only while it holds more than its leaves may and may still be divided, and what it holds is handed down
/// to its quarters; else it stays whole.
pub proof fn law_crowded_regions_divide(
    region: Region,
    idxs: Seq<usize>,
    boxes: Seq<Aabb>,
    left: nat,
    leaf_cap: nat,
)
    ensures
        idxs.len() <= leaf_cap || left == 0 ==> planned(region, idxs, boxes, left, leaf_cap) == (
        Plan::Leaf { items: idxs }),
        idxs.len() > leaf_cap && left >= 2 ==> (planned(region, idxs, boxes, left, leaf_cap)
            matches Plan::Branch { nw, ne, sw, se } && *nw == planned(
            quarter(region, false, false),
            idxs.filter(goes_to(boxes, region, false, false)),
            boxes,
            (left - 1) as nat,
            leaf_cap,
        ) && *ne == planned(
            quarter(region, false, true),
            idxs.filter(goes_to(boxes, region, false, true)),
            boxes,
            (left - 1) as nat,
            leaf_cap,
        ) && *sw == planned(
            quarter(region, true, false),
            idxs.filter(goes_to(boxes, region, true, false)),
            boxes,
            (left - 1) as nat,
            leaf_cap,
        ) && *se == planned(
            quarter(region, true, true),
            idxs.filter(goes_to(boxes, region, true, true)),
            boxes,
            (left - 1) as nat,
            leaf_cap,
        )),
{
}

/// A box keeps its size where it is measured in finer parts: 2^24 of them to a unit.
pub proof fn law_regions_are_finer(b: Aabb)
    ensures
        fine(b).min_x == b.min_x * 0x100_0000,
        fine(b).min_y == b.min_y * 0x100_0000,
        fine(b).max_x == b.max_x * 0x100_0000,
        fine(b).max_y == b.max_y * 0x100_0000,
        2 * centre_x(b) == fine(b).min_x + fine(b).max_x,
        2 * centre_y(b) == fine(b).min_y + fine(b).max_y,
{
}

/// The nodes of a tree are drawn from the top: first the whole region with everything in it, then what lies in each quarter, one level deeper.
pub proof fn law_nodes_are_drawn_from_the_top(p: Plan, region: Region, depth: int)
    requires
        0 <= depth <= u32::MAX,
        plan_items(p).len() <= usize::MAX,
    ensures
        infos_of(p, region, depth).len() > 0,
        infos_of(p, region, depth)[0].region == region,
        infos_of(p, region, depth)[0].depth == depth,
        infos_of(p, region, depth)[0].count == plan_items(p).len(),
        infos_of(p, region, depth)[0].leaf <==> p is Leaf,
        p is Leaf ==> infos_of(p, region, depth).len() == 1,
        p matches Plan::Branch { nw, ne, sw, se } ==> infos_of(p, region, depth).len() == 1 + infos_of(
            *nw,
            quarter(region, false, false),
            depth + 1,
        ).len() + infos_of(*ne, quarter(region, false, true), depth + 1).len() + infos_of(
            *sw,
            quarter(region, true, false),
            depth + 1,
        ).len() + infos_of(*se, quarter(region, true, true), depth + 1).len(),
{
}

} // verus!
