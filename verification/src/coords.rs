//! Anchored coordinates: a position is the address of a cell of a galaxy-wide grid, and a small offset
//! from that cell's corner.
//!
//! A single number cannot span a galaxy and still resolve a fraction of a metre. The address is a pair of
//! 64-bit integers, the offset is counted in eighths of a world unit, and precision is the same
//! everywhere. The same point can be written from many corners; what identifies it is its canonical key,
//! which does not depend on the corner.
use vstd::prelude::*;

use crate::order::Ordered;
use crate::shard::SectorId;

verus! {

/// The side of an anchor's cell in world units. It is the side of a sector, so that the anchors are the
/// sectors, addressed more widely.
pub const ANCHOR_SPAN: i64 = 9000;

/// Steps of an offset in one world unit.
pub const QUANT: i64 = 8;

/// The side of an anchor's cell in steps.
pub const SPAN8: i64 = 72_000;

/// A cell of the galaxy-wide grid.
#[derive(Debug, Clone, Copy, PartialEq, Eq, PartialOrd, Ord, Hash, Structural)]
pub struct Anchor {
    pub ax: i64,
    pub ay: i64,
}

impl View for Anchor {
    type V = Anchor;

    open spec fn view(&self) -> Anchor {
        *self
    }
}

impl Ordered for Anchor {
    open spec fn below(a: Anchor, b: Anchor) -> bool {
        a.ax < b.ax || (a.ax == b.ax && a.ay < b.ay)
    }

    fn is_below(&self, other: &Self) -> (r: bool) {
        self.ax < other.ax || (self.ax == other.ax && self.ay < other.ay)
    }

    proof fn below_irreflexive(a: Anchor) {
    }

    proof fn below_transitive(a: Anchor, b: Anchor, c: Anchor) {
    }

    proof fn below_total(a: Anchor, b: Anchor) {
    }
}

/// The value, or the nearest end of the range of a sector's address.
pub open spec fn into_sector_range(v: i64) -> int {
    if v < i32::MIN {
        i32::MIN as int
    } else if v > i32::MAX {
        i32::MAX as int
    } else {
        v as int
    }
}

fn sector_axis(v: i64) -> (r: i32)
    ensures
        r == into_sector_range(v),
{
    if v < i32::MIN as i64 {
        i32::MIN
    } else if v > i32::MAX as i64 {
        i32::MAX
    } else {
        v as i32
    }
}

impl Anchor {
    pub fn new(ax: i64, ay: i64) -> (a: Self)
        ensures
            a == (Anchor { ax, ay }),
    {
        Anchor { ax, ay }
    }

    /// The anchor at the middle of the galaxy.
    pub fn origin() -> (a: Self)
        ensures
            a == (Anchor { ax: 0, ay: 0 }),
    {
        Anchor { ax: 0, ay: 0 }
    }

    /// The anchor of a sector.
    pub fn from_sector(s: SectorId) -> (a: Anchor)
        ensures
            a.ax == s.sx,
            a.ay == s.sy,
    {
        Anchor { ax: s.sx as i64, ay: s.sy as i64 }
    }

    /// The sector of an anchor; the nearest one where the anchor lies beyond all sectors.
    pub fn to_sector(self) -> (s: SectorId)
        ensures
            s.sx == into_sector_range(self.ax),
            s.sy == into_sector_range(self.ay),
    {
        SectorId::new(sector_axis(self.ax), sector_axis(self.ay))
    }

    /// The anchor so many cells away.
    pub fn offset(self, dx: i64, dy: i64) -> (a: Anchor)
        requires
            i64::MIN <= self.ax + dx <= i64::MAX,
            i64::MIN <= self.ay + dy <= i64::MAX,
        ensures
            a.ax == self.ax + dx,
            a.ay == self.ay + dy,
    {
        Anchor { ax: self.ax + dx, ay: self.ay + dy }
    }

    /// The corner of the anchor's cell, in steps from the origin.
    pub fn origin8(self) -> (r: (i128, i128))
        ensures
            r.0 == self.ax * 72_000,
            r.1 == self.ay * 72_000,
    {
        (self.ax as i128 * 72_000, self.ay as i128 * 72_000)
    }
}

/// The cells are as wide in steps as they are in units.
pub proof fn law_spans_agree()
    ensures
        SPAN8 == ANCHOR_SPAN * QUANT,
        ANCHOR_SPAN == crate::sim::SECTOR_SIZE,
{
}

/// A sector is the same patch as its anchor.
pub proof fn law_sector_of_anchor(s: SectorId)
    ensures
        into_sector_range(s.sx as i64) == s.sx,
        into_sector_range(s.sy as i64) == s.sy,
{
}

/// A position: an anchor, and an offset from its corner in steps.
#[derive(Debug, Clone, Copy, PartialEq, Eq, Structural)]
pub struct GalaxyPos {
    pub anchor: Anchor,
    pub x: i64,
    pub y: i64,
}

/// Where a position is, in steps from the origin.
pub open spec fn global_x(p: GalaxyPos) -> int {
    p.anchor.ax * 72_000 + p.x
}

pub open spec fn global_y(p: GalaxyPos) -> int {
    p.anchor.ay * 72_000 + p.y
}

/// The canonical form of a position: the cell that the point lies in, and an offset inside it.
pub open spec fn canonical(p: GalaxyPos) -> (int, int, int, int) {
    (
        global_x(p) / 72_000,
        global_y(p) / 72_000,
        global_x(p) % 72_000,
        global_y(p) % 72_000,
    )
}

fn cells_in(v: i64) -> (c: i64)
    ensures
        c == (v as int) / 72_000,
{
    if v >= 0 {
        v / 72_000
    } else {
        let m: i64 = -(v + 1);
        -1 - m / 72_000
    }
}

fn rest_in(v: i64) -> (r: i64)
    ensures
        r == (v as int) % 72_000,
{
    if v >= 0 {
        v % 72_000
    } else {
        let m: i64 = -(v + 1);
        71_999 - m % 72_000
    }
}

impl GalaxyPos {
    /// The cell that the point lies in has an address.
    pub open spec fn placed(&self) -> bool {
        &&& i64::MIN <= canonical(*self).0 <= i64::MAX
        &&& i64::MIN <= canonical(*self).1 <= i64::MAX
    }

    pub fn new(anchor: Anchor, x: i64, y: i64) -> (p: Self)
        ensures
            p == (GalaxyPos { anchor, x, y }),
    {
        GalaxyPos { anchor, x, y }
    }

    /// The corner of an anchor's cell.
    pub fn at(anchor: Anchor) -> (p: Self)
        ensures
            p == (GalaxyPos { anchor, x: 0, y: 0 }),
    {
        GalaxyPos { anchor, x: 0, y: 0 }
    }

    /// The same point, written from the corner of the cell that it lies in.
    pub fn normalize(self) -> (n: GalaxyPos)
        requires
            self.placed(),
        ensures
            global_x(n) == global_x(self),
            global_y(n) == global_y(self),
            0 <= n.x < SPAN8,
            0 <= n.y < SPAN8,
            (n.anchor.ax as int, n.anchor.ay as int, n.x as int, n.y as int) == canonical(self),
    {
        let cx: i64 = cells_in(self.x);
        let cy: i64 = cells_in(self.y);
        proof {
            lemma_carry(self.anchor.ax as int, self.x as int);
            lemma_carry(self.anchor.ay as int, self.y as int);
        }
        GalaxyPos {
            anchor: self.anchor.offset(cx, cy),
            x: rest_in(self.x),
            y: rest_in(self.y),
        }
    }

    /// The canonical key of the point: the address of its cell, and its offset there in steps.
    pub fn fixed8(self) -> (k: (i64, i64, i32, i32))
        requires
            self.placed(),
        ensures
            (k.0 as int, k.1 as int, k.2 as int, k.3 as int) == canonical(self),
            0 <= k.2 < SPAN8,
            0 <= k.3 < SPAN8,
    {
        let n = self.normalize();
        (n.anchor.ax, n.anchor.ay, n.x as i32, n.y as i32)
    }

    /// The offset of the point from the corner of another anchor, in steps.
    pub fn to_frame(self, frame: Anchor) -> (r: (i128, i128))
        ensures
            r.0 == global_x(self) - frame.ax * 72_000,
            r.1 == global_y(self) - frame.ay * 72_000,
    {
        (
            (self.anchor.ax as i128 - frame.ax as i128) * 72_000 + self.x as i128,
            (self.anchor.ay as i128 - frame.ay as i128) * 72_000 + self.y as i128,
        )
    }

    /// The way from `other` to this point, in steps.
    pub fn delta(self, other: GalaxyPos) -> (r: (i128, i128))
        ensures
            r.0 == global_x(self) - global_x(other),
            r.1 == global_y(self) - global_y(other),
    {
        let (fx, fy) = self.to_frame(other.anchor);
        (fx - other.x as i128, fy - other.y as i128)
    }

    /// Where the point is, in steps from the origin.
    pub fn global8(self) -> (r: (i128, i128))
        ensures
            r.0 == global_x(self),
            r.1 == global_y(self),
    {
        let (ox, oy) = self.anchor.origin8();
        (ox + self.x as i128, oy + self.y as i128)
    }
}

proof fn lemma_carry(a: int, x: int)
    ensures
        (a * 72_000 + x) / 72_000 == a + x / 72_000,
        (a * 72_000 + x) % 72_000 == x % 72_000,
        x % 72_000 == x - (x / 72_000) * 72_000,
{
}

/// The canonical key does not depend on the anchor that a point is written from: the same point has one
/// key, and different points have different keys.
pub proof fn law_key_is_origin_invariant(p: GalaxyPos, q: GalaxyPos)
    ensures
        canonical(p) == canonical(q) <==> global_x(p) == global_x(q) && global_y(p) == global_y(q),
{
}

/// A point that is written from another anchor, its offset corrected by as many cells, keeps its key.
pub proof fn law_reanchoring_keeps_the_key(p: GalaxyPos, q: GalaxyPos, dx: int, dy: int)
    requires
        q.anchor.ax == p.anchor.ax + dx,
        q.anchor.ay == p.anchor.ay + dy,
        q.x == p.x - dx * 72_000,
        q.y == p.y - dy * 72_000,
    ensures
        canonical(q) == canonical(p),
{
}

/// Two points a single step apart have different keys, however far out they are.
pub proof fn law_a_step_is_resolved(p: GalaxyPos, q: GalaxyPos)
    requires
        p.anchor == q.anchor,
        p.x != q.x || p.y != q.y,
    ensures
        canonical(p) != canonical(q),
{
}

/// A step is an eighth of a unit, and a cell is 9000 units wide: one cell further is 72 000 steps further, along the one
/// axis and not along the other.
pub proof fn law_cells_are_laid_out(p: GalaxyPos, q: GalaxyPos, n: int, m: int, dx: int, dy: int)
    requires
        q.anchor.ax == p.anchor.ax + n,
        q.anchor.ay == p.anchor.ay + m,
        q.x == p.x + dx,
        q.y == p.y + dy,
    ensures
        global_x(q) - global_x(p) == 72_000 * n + dx,
        global_y(q) - global_y(p) == 72_000 * m + dy,
{
}

/// The key of a point names the cell that it lies in, and how far from the cell's corner: less than a cell, and never
/// negative. Together they give the point back.
pub proof fn law_keys_name_the_cell(p: GalaxyPos)
    ensures
        0 <= canonical(p).2 < 72_000,
        0 <= canonical(p).3 < 72_000,
        canonical(p).0 * 72_000 + canonical(p).2 == p.anchor.ax * 72_000 + p.x,
        canonical(p).1 * 72_000 + canonical(p).3 == p.anchor.ay * 72_000 + p.y,
        0 <= p.x < 72_000 && 0 <= p.y < 72_000 ==> canonical(p) == (
            p.anchor.ax as int,
            p.anchor.ay as int,
            p.x as int,
            p.y as int,
        ),
{
}

/// The way between two points is counted in steps along each axis, cells and offsets together; the way back is its
/// opposite.
pub proof fn law_ways(p: GalaxyPos, q: GalaxyPos, there: (i128, i128), back: (i128, i128), frame: (i128, i128))
    requires
        call_ensures(GalaxyPos::delta, (q, p), there),
        call_ensures(GalaxyPos::delta, (p, q), back),
        call_ensures(GalaxyPos::to_frame, (q, p.anchor), frame),
    ensures
        there.0 == (q.anchor.ax - p.anchor.ax) * 72_000 + (q.x - p.x),
        there.1 == (q.anchor.ay - p.anchor.ay) * 72_000 + (q.y - p.y),
        there.0 == -back.0,
        there.1 == -back.1,
        frame.0 == there.0 + p.x,
        frame.1 == there.1 + p.y,
{
}

/// An anchor that lies beyond all sectors is told as the nearest sector, any other as its own.
pub proof fn law_sectors_of_anchors(v: i64)
    ensures
        -0x8000_0000 <= v <= 0x7fff_ffff ==> into_sector_range(v) == v,
        v < -0x8000_0000 ==> into_sector_range(v) == -0x8000_0000,
        v > 0x7fff_ffff ==> into_sector_range(v) == 0x7fff_ffff,
{
}

} // verus!
