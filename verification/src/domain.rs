//! Authority that follows the players.
//!
//! A player owns a domain: the box around everything they are authoritative for, which moves with them.
//! Two domains whose boxes overlap see each other. What nobody owns is claimed by the nearest domain. All
//! of it is a function of where the entities are, so every node that knows that computes the same owners.
use vstd::prelude::*;
use vstd::string::*;

use crate::galaxy::World;
use crate::order::{views, SortedMap};
use crate::shard::SectorId;
use crate::sim::{Ship, Sim};
use crate::sort::{
    in_order, lemma_filter_holds, lemma_filter_push, lemma_stably_sorted, sort_stably, stably_sorted, Ranked,
};
use crate::text::{lemma_text_order, same_text, text_below, text_less};

verus! {

/// Coordinates lie within this distance of the origin.
pub const WORLD_LIMIT: World = 1_152_921_504_606_846_976;

/// The owner of what nobody pilots.
pub const UNOWNED: &'static str = "";

/// The coordinate is one of the world.
pub open spec fn in_world(v: int) -> bool {
    -WORLD_LIMIT <= v <= WORLD_LIMIT
}

/// A box in world coordinates.
#[derive(Debug, Clone, Copy, PartialEq, Eq, Structural)]
pub struct Bounds {
    pub min_x: World,
    pub min_y: World,
    pub max_x: World,
    pub max_y: World,
}

pub open spec fn least(a: World, b: World) -> World {
    if b < a {
        b
    } else {
        a
    }
}

pub open spec fn greatest(a: World, b: World) -> World {
    if b > a {
        b
    } else {
        a
    }
}

/// The smallest box that holds both.
pub open spec fn joined(a: Bounds, b: Bounds) -> Bounds {
    Bounds {
        min_x: least(a.min_x, b.min_x),
        min_y: least(a.min_y, b.min_y),
        max_x: greatest(a.max_x, b.max_x),
        max_y: greatest(a.max_y, b.max_y),
    }
}

/// The boxes overlap; touching edges count.
pub open spec fn overlaps(a: Bounds, b: Bounds) -> bool {
    a.min_x <= b.max_x && a.max_x >= b.min_x && a.min_y <= b.max_y && a.max_y >= b.min_y
}

pub open spec fn holds_point(b: Bounds, x: int, y: int) -> bool {
    b.min_x <= x <= b.max_x && b.min_y <= y <= b.max_y
}

/// The box with its edges moved out by `pad`.
pub open spec fn grown(b: Bounds, pad: int) -> Bounds {
    Bounds {
        min_x: (b.min_x - pad) as World,
        min_y: (b.min_y - pad) as World,
        max_x: (b.max_x + pad) as World,
        max_y: (b.max_y + pad) as World,
    }
}

/// The edges can be moved out by `pad`.
pub open spec fn can_grow(b: Bounds, pad: int) -> bool {
    &&& i64::MIN <= b.min_x - pad <= i64::MAX
    &&& i64::MIN <= b.min_y - pad <= i64::MAX
    &&& i64::MIN <= b.max_x + pad <= i64::MAX
    &&& i64::MIN <= b.max_y + pad <= i64::MAX
}

pub open spec fn point_box(x: World, y: World) -> Bounds {
    Bounds { min_x: x, min_y: y, max_x: x, max_y: y }
}

pub open spec fn box_in_world(b: Bounds) -> bool {
    in_world(b.min_x as int) && in_world(b.min_y as int) && in_world(b.max_x as int) && in_world(
        b.max_y as int,
    )
}

/// The middle of an interval, rounded down.
pub open spec fn midway(a: World, b: World) -> int {
    (a + b) / 2
}

fn smaller(a: World, b: World) -> (r: World)
    ensures
        r == least(a, b),
{
    if b < a {
        b
    } else {
        a
    }
}

fn larger(a: World, b: World) -> (r: World)
    ensures
        r == greatest(a, b),
{
    if b > a {
        b
    } else {
        a
    }
}

fn middle_of(a: World, b: World) -> (r: World)
    ensures
        r == midway(a, b),
{
    let s: i128 = a as i128 + b as i128;
    if s >= 0 {
        (s / 2) as i64
    } else {
        let m: i128 = -(s + 1);
        (-1 - m / 2) as i64
    }
}

fn cell_of(v: World) -> (r: i32)
    ensures
        r == sector_axis_of(v as int),
{
    let c: i64 = if v >= 0 {
        v / 9000
    } else {
        let m: i64 = -(v + 1);
        -1 - m / 9000
    };
    if c < i32::MIN as i64 {
        i32::MIN
    } else if c > i32::MAX as i64 {
        i32::MAX
    } else {
        c as i32
    }
}

/// The column or row of sectors that a coordinate lies in; beyond all sectors, the nearest one.
pub open spec fn sector_axis_of(v: int) -> int {
    let c = v / 9000;
    if c < i32::MIN {
        i32::MIN as int
    } else if c > i32::MAX {
        i32::MAX as int
    } else {
        c
    }
}

/// The sectors of the first `n` of a rectangle of columns and rows, row by row.
pub open spec fn sector_grid(x0: int, y0: int, w: int, n: nat) -> Seq<SectorId> {
    Seq::new(n, |k: int| SectorId { sx: (x0 + k % w) as i32, sy: (y0 + k / w) as i32 })
}

/// The sectors that a box overlaps, row by row.
pub open spec fn sectors_of(b: Bounds) -> Seq<SectorId> {
    let x0 = sector_axis_of(b.min_x as int);
    let x1 = sector_axis_of(b.max_x as int);
    let y0 = sector_axis_of(b.min_y as int);
    let y1 = sector_axis_of(b.max_y as int);
    if x0 <= x1 && y0 <= y1 {
        sector_grid(x0, y0, x1 - x0 + 1, ((x1 - x0 + 1) * (y1 - y0 + 1)) as nat)
    } else {
        Seq::empty()
    }
}

impl Bounds {
    /// The box of two corners, given in any order.
    pub fn new(ax: World, ay: World, bx: World, by: World) -> (b: Self)
        ensures
            b.min_x == least(ax, bx),
            b.min_y == least(ay, by),
            b.max_x == greatest(ax, bx),
            b.max_y == greatest(ay, by),
    {
        Bounds {
            min_x: smaller(ax, bx),
            min_y: smaller(ay, by),
            max_x: larger(ax, bx),
            max_y: larger(ay, by),
        }
    }

    /// The box around an entity of radius `r`.
    pub fn around(x: World, y: World, r: World) -> (b: Self)
        requires
            can_grow(point_box(x, y), r as int),
        ensures
            b == grown(point_box(x, y), r as int),
    {
        Bounds { min_x: x - r, min_y: y - r, max_x: x + r, max_y: y + r }
    }

    /// The smallest box that holds both.
    pub fn union(&self, o: &Bounds) -> (b: Bounds)
        ensures
            b == joined(*self, *o),
    {
        Bounds {
            min_x: smaller(self.min_x, o.min_x),
            min_y: smaller(self.min_y, o.min_y),
            max_x: larger(self.max_x, o.max_x),
            max_y: larger(self.max_y, o.max_y),
        }
    }

    /// Do the boxes overlap? Touching edges count.
    pub fn intersects(&self, o: &Bounds) -> (r: bool)
        ensures
            r == overlaps(*self, *o),
    {
        self.min_x <= o.max_x && self.max_x >= o.min_x && self.min_y <= o.max_y && self.max_y
            >= o.min_y
    }

    /// Is the point in the box? The edges belong to it.
    pub fn contains_point(&self, x: World, y: World) -> (r: bool)
        ensures
            r == holds_point(*self, x as int, y as int),
    {
        x >= self.min_x && x <= self.max_x && y >= self.min_y && y <= self.max_y
    }

    /// The middle of the box, rounded down to a unit.
    pub fn center(&self) -> (r: (World, World))
        ensures
            r.0 == midway(self.min_x, self.max_x),
            r.1 == midway(self.min_y, self.max_y),
    {
        (middle_of(self.min_x, self.max_x), middle_of(self.min_y, self.max_y))
    }

    /// Whether the middle lies half a unit beyond what `center` says, along either axis.
    pub fn centred_between(&self) -> (r: (bool, bool))
        ensures
            r.0 == ((self.min_x + self.max_x) % 2 == 1),
            r.1 == ((self.min_y + self.max_y) % 2 == 1),
    {
        ((self.min_x % 2 == 0) != (self.max_x % 2 == 0), (self.min_y % 2 == 0) != (self.max_y % 2 == 0))
    }

    /// The box grown by `pad` on every side.
    pub fn expanded(&self, pad: World) -> (b: Bounds)
        requires
            can_grow(*self, pad as int),
        ensures
            b == grown(*self, pad as int),
    {
        Bounds {
            min_x: self.min_x - pad,
            min_y: self.min_y - pad,
            max_x: self.max_x + pad,
            max_y: self.max_y + pad,
        }
    }

    /// The sectors that the box overlaps, row by row: one where it lies within a sector, two on an
    /// edge, four on a corner, and more as it grows.
    pub fn sectors(&self) -> (r: Vec<SectorId>)
        ensures
            r@ == sectors_of(*self),
    {
        let x0: i64 = cell_of(self.min_x) as i64;
        let x1: i64 = cell_of(self.max_x) as i64;
        let y0: i64 = cell_of(self.min_y) as i64;
        let y1: i64 = cell_of(self.max_y) as i64;
        let mut out: Vec<SectorId> = Vec::new();
        if x0 > x1 || y0 > y1 {
            return out;
        }
        let ghost w = x1 - x0 + 1;
        let ghost h = y1 - y0 + 1;
        let mut sy: i64 = y0;
        assert(w * 0 == 0) by (nonlinear_arith);
        assert(out@ =~= sector_grid(x0 as int, y0 as int, w, 0));
        while sy <= y1
            invariant
                i32::MIN <= x0 <= x1 <= i32::MAX,
                i32::MIN <= y0 <= sy <= y1 + 1,
                y1 <= i32::MAX,
                w == x1 - x0 + 1,
                w * (sy - y0) >= 0,
                out@ == sector_grid(x0 as int, y0 as int, w, (w * (sy - y0)) as nat),
            decreases y1 + 1 - sy,
        {
            let mut sx: i64 = x0;
            while sx <= x1
                invariant
                    i32::MIN <= x0 <= sx <= x1 + 1,
                    x1 <= i32::MAX,
                    i32::MIN <= y0 <= sy <= y1 <= i32::MAX,
                    w == x1 - x0 + 1,
                    w * (sy - y0) >= 0,
                    out@ == sector_grid(
                        x0 as int,
                        y0 as int,
                        w,
                        (w * (sy - y0) + (sx - x0)) as nat,
                    ),
                decreases x1 + 1 - sx,
            {
                proof {
                    let k = w * (sy - y0) + (sx - x0);
                    lemma_row_column(w, sy - y0, sx - x0);
                    assert(out@.push(SectorId { sx: sx as i32, sy: sy as i32 }) =~= sector_grid(
                        x0 as int,
                        y0 as int,
                        w,
                        (k + 1) as nat,
                    ));
                }
                out.push(SectorId::new(sx as i32, sy as i32));
                sx = sx + 1;
            }
            proof {
                assert(w * (sy - y0) + w == w * (sy + 1 - y0)) by (nonlinear_arith);
            }
            sy = sy + 1;
        }
        assert(w * h == w * (sy - y0)) by (nonlinear_arith)
            requires
                h == sy - y0,
        ;
        out
    }
}

proof fn lemma_row_column(w: int, row: int, col: int)
    requires
        w > 0,
        row >= 0,
        0 <= col < w,
    ensures
        (w * row + col) / w == row,
        (w * row + col) % w == col,
{
    assert(w * row == row * w) by (nonlinear_arith);
    vstd::arithmetic::div_mod::lemma_fundamental_div_mod_converse(w * row + col, w, row, col);
}

/// The sectors of a box are those that it reaches into.
pub proof fn law_sectors_cover_the_box(b: Bounds, x: int, y: int)
    requires
        holds_point(b, x, y),
    ensures
        sectors_of(b).contains(
            SectorId { sx: sector_axis_of(x) as i32, sy: sector_axis_of(y) as i32 },
        ),
{
    let x0 = sector_axis_of(b.min_x as int);
    let x1 = sector_axis_of(b.max_x as int);
    let y0 = sector_axis_of(b.min_y as int);
    let y1 = sector_axis_of(b.max_y as int);
    let cx = sector_axis_of(x);
    let cy = sector_axis_of(y);
    let w = x1 - x0 + 1;
    let h = y1 - y0 + 1;
    let k = w * (cy - y0) + (cx - x0);
    assert(x0 <= cx <= x1 && y0 <= cy <= y1);
    lemma_row_column(w, cy - y0, cx - x0);
    assert(0 <= k < w * h) by (nonlinear_arith)
        requires
            k == w * (cy - y0) + (cx - x0),
            0 <= cx - x0 < w,
            0 <= cy - y0 <= h - 1,
    ;
    assert(sectors_of(b)[k] == (SectorId { sx: cx as i32, sy: cy as i32 }));
}

/// Something that has an owner, a place and a size.
pub trait Owned: Sized {
    closed spec fn owner_of(&self) -> Seq<char> {
        arbitrary()
    }

    closed spec fn key(&self) -> u64 {
        arbitrary()
    }

    closed spec fn place(&self) -> (World, World) {
        arbitrary()
    }

    closed spec fn size(&self) -> World {
        arbitrary()
    }

    /// The owner whose node is authoritative for it, or nobody.
    fn owner(&self) -> (o: &str)
        ensures
            o@ == self.owner_of(),
    ;

    /// An id, unique with its owner.
    fn entity_id(&self) -> (id: u64)
        ensures
            id == self.key(),
    ;

    fn pos(&self) -> (p: (World, World))
        ensures
            p == self.place(),
    ;

    /// Half the side of its box.
    fn radius(&self) -> (r: World)
        ensures
            r == self.size(),
    ;
}

/// The box of an entity.
pub open spec fn box_of<E: Owned>(e: E) -> Bounds {
    grown(point_box(e.place().0, e.place().1), e.size() as int)
}

/// The entity and its box lie in the world.
pub open spec fn fits<E: Owned>(e: E) -> bool {
    can_grow(point_box(e.place().0, e.place().1), e.size() as int) && box_in_world(box_of(e))
}

/// A player's bubble.
#[derive(Debug, PartialEq, Eq)]
pub struct Domain {
    pub owner: String,
    /// The point that the bubble follows: the owner's own ship.
    pub anchor: (World, World),
    /// The point lies half a unit further, along either axis.
    pub half: (bool, bool),
    /// The box around everything that the owner is authoritative for.
    pub bounds: Bounds,
    /// That box, grown by how far the owner sees.
    pub interest: Bounds,
    /// How many entities the owner is authoritative for.
    pub entities: u32,
}

/// What is known of an owner's entities: the box around them, where the bubble is anchored if that is
/// known, and how many they are.
#[derive(Debug, Clone, Copy)]
pub struct Tally {
    pub bounds: Bounds,
    pub anchor: Option<(World, World)>,
    pub n: u32,
}

/// An entity as far as bubbles go.
pub struct Spot {
    pub owner: Seq<char>,
    pub bounds: Bounds,
    /// Where the bubble is anchored, if this is the entity that anchors it.
    pub anchor: Option<(World, World)>,
}

/// The tally once one more entity is counted.
pub open spec fn counted(t: Option<Tally>, s: Spot) -> Tally {
    match t {
        Some(t) => Tally {
            bounds: joined(t.bounds, s.bounds),
            anchor: if s.anchor is Some {
                s.anchor
            } else {
                t.anchor
            },
            n: (t.n + 1) as u32,
        },
        None => Tally { bounds: s.bounds, anchor: s.anchor, n: 1 },
    }
}

/// The tally of an owner's entities, if there are any.
pub open spec fn tally_of(spots: Seq<Spot>, owner: Seq<char>) -> Option<Tally>
    decreases spots.len(),
{
    if spots.len() == 0 {
        None
    } else {
        let before = tally_of(spots.drop_last(), owner);
        if spots.last().owner == owner {
            Some(counted(before, spots.last()))
        } else {
            before
        }
    }
}

/// The domain of an owner: its box holds the anchor whatever else it holds.
pub open spec fn is_domain(
    d: Domain,
    owner: Seq<char>,
    anchor: (World, World),
    half: (bool, bool),
    tally: Option<Tally>,
    view_radius: World,
) -> bool {
    let seed = point_box(anchor.0, anchor.1);
    &&& d.owner@ == owner
    &&& d.anchor == anchor
    &&& d.half == half
    &&& d.bounds == (match tally {
        Some(t) => joined(t.bounds, seed),
        None => seed,
    })
    &&& d.interest == grown(d.bounds, view_radius as int)
    &&& d.entities == (match tally {
        Some(t) => t.n,
        None => 0,
    })
}

/// The anchor of a bubble is half a unit further than `anchor_of_tally` says: the middle of its box lies
/// between two units.
pub open spec fn half_of_tally(t: Tally) -> (bool, bool) {
    match t.anchor {
        Some(a) => (false, false),
        None => (
            (t.bounds.min_x + t.bounds.max_x) % 2 == 1,
            (t.bounds.min_y + t.bounds.max_y) % 2 == 1,
        ),
    }
}

/// Where the bubble of a tally is anchored: at its anchoring entity, or in the middle of its box, to the
/// unit below.
pub open spec fn anchor_of_tally(t: Tally) -> (World, World) {
    match t.anchor {
        Some(a) => a,
        None => (
            midway(t.bounds.min_x, t.bounds.max_x) as World,
            midway(t.bounds.min_y, t.bounds.max_y) as World,
        ),
    }
}

proof fn lemma_tally_in_world(spots: Seq<Spot>, owner: Seq<char>)
    requires
        spots.len() <= u32::MAX,
        forall|i: int| 0 <= i < spots.len() ==> box_in_world((#[trigger] spots[i]).bounds),
    ensures
        tally_of(spots, owner) matches Some(t) ==> box_in_world(t.bounds) && 1 <= t.n <= spots.len(),
    decreases spots.len(),
{
    if spots.len() > 0 {
        lemma_tally_in_world(spots.drop_last(), owner);
        assert(box_in_world(spots[spots.len() - 1].bounds));
    }
}

/// What an entity counts as in a domain that is anchored elsewhere.
pub open spec fn spot_of<E: Owned>(e: E) -> Spot {
    Spot { owner: e.owner_of(), bounds: box_of(e), anchor: None }
}

/// Entities that all count for one owner.
pub open spec fn spots_for<E: Owned>(owned: Seq<E>, owner: Seq<char>) -> Seq<Spot> {
    owned.map_values(|e: E| Spot { owner, bounds: box_of(e), anchor: None })
}

fn domain_from(
    owner: String,
    anchor: (World, World),
    half: (bool, bool),
    tally: Option<Tally>,
    view_radius: World,
) -> (d: Domain)
    requires
        in_world(anchor.0 as int),
        in_world(anchor.1 as int),
        in_world(view_radius as int),
        tally matches Some(t) ==> box_in_world(t.bounds),
    ensures
        is_domain(d, owner@, anchor, half, tally, view_radius),
{
    let seed = Bounds::around(anchor.0, anchor.1, 0);
    assert(seed == point_box(anchor.0, anchor.1));
    let (bounds, n): (Bounds, u32) = match tally {
        Some(t) => (t.bounds.union(&seed), t.n),
        None => (seed, 0),
    };
    Domain { owner, anchor, half, bounds, interest: bounds.expanded(view_radius), entities: n }
}

fn tally_with(
    t: Option<Tally>,
    b: Bounds,
    anchor: Option<(World, World)>,
    Ghost(owner): Ghost<Seq<char>>,
) -> (r: Tally)
    requires
        t matches Some(t) ==> t.n < u32::MAX,
    ensures
        r == counted(t, Spot { owner, bounds: b, anchor }),
{
    match t {
        Some(t) => Tally {
            bounds: t.bounds.union(&b),
            anchor: if anchor.is_some() {
                anchor
            } else {
                t.anchor
            },
            n: t.n + 1,
        },
        None => Tally { bounds: b, anchor, n: 1 },
    }
}

impl Domain {
    /// The domain of an owner: the box around the given entities, anchored at a point that it holds in
    /// any case, so that the owner is never outside of their own domain.
    pub fn build<E: Owned>(
        owner: &str,
        anchor: (World, World),
        owned: &Vec<E>,
        view_radius: World,
    ) -> (d: Domain)
        requires
            in_world(anchor.0 as int),
            in_world(anchor.1 as int),
            in_world(view_radius as int),
            owned@.len() <= u32::MAX,
            forall|i: int| 0 <= i < owned@.len() ==> fits(#[trigger] owned@[i]),
        ensures
            is_domain(
                d,
                owner@,
                anchor,
                (false, false),
                tally_of(spots_for(owned@, owner@), owner@),
                view_radius,
            ),
    {
        let ghost spots = spots_for(owned@, owner@);
        let mut tally: Option<Tally> = None;
        let mut i: usize = 0;
        assert(spots.subrange(0, 0) =~= Seq::<Spot>::empty());
        proof {
            assert forall|j: int| 0 <= j < spots.len() implies box_in_world(
                (#[trigger] spots[j]).bounds,
            ) by {
                assert(fits(owned@[j]));
            }
        }
        while i < owned.len()
            invariant
                i <= owned@.len() <= u32::MAX,
                spots == spots_for(owned@, owner@),
                forall|j: int| 0 <= j < owned@.len() ==> fits(#[trigger] owned@[j]),
                forall|j: int|
                    0 <= j < spots.len() ==> box_in_world((#[trigger] spots[j]).bounds),
                tally == tally_of(spots.subrange(0, i as int), owner@),
            decreases owned@.len() - i,
        {
            let e = &owned[i];
            assert(fits(owned@[i as int]));
            let (x, y) = e.pos();
            let b = Bounds::around(x, y, e.radius());
            proof {
                let next = spots.subrange(0, i + 1);
                assert(next.drop_last() =~= spots.subrange(0, i as int));
                assert(next.last() == (Spot { owner: owner@, bounds: b, anchor: None }));
                lemma_tally_in_world(spots.subrange(0, i as int), owner@);
            }
            tally = Some(tally_with(tally, b, None, Ghost(owner@)));
            i = i + 1;
        }
        proof {
            assert(spots.subrange(0, i as int) =~= spots);
            lemma_tally_in_world(spots, owner@);
        }
        domain_from(owner.to_string(), anchor, (false, false), tally, view_radius)
    }

    /// Four times the square of the distance from the anchor to a point.
    fn anchor_d4(&self, x: World, y: World) -> (d: i128)
        requires
            in_world(self.anchor.0 as int),
            in_world(self.anchor.1 as int),
            in_world(x as int),
            in_world(y as int),
        ensures
            d == distance4(*self, x as int, y as int),
            0 <= d <= 0x4000_0000_0000_0000_0000_0000_0000_0000,
    {
        let hx: i128 = if self.half.0 {
            1
        } else {
            0
        };
        let hy: i128 = if self.half.1 {
            1
        } else {
            0
        };
        let dx: i128 = 2 * (self.anchor.0 as i128 - x as i128) + hx;
        let dy: i128 = 2 * (self.anchor.1 as i128 - y as i128) + hy;
        proof {
            lemma_square_fits(dx as int);
            lemma_square_fits(dy as int);
        }
        dx * dx + dy * dy
    }
}

/// A coordinate of an anchor in half units, measured from a point.
pub open spec fn twice_off(anchor: World, half: bool, v: int) -> int {
    2 * (anchor - v) + (if half {
        1int
    } else {
        0int
    })
}

/// Four times the square of the distance from a domain's anchor to a point: distances are in half units.
pub open spec fn distance4(d: Domain, x: int, y: int) -> int {
    let dx = twice_off(d.anchor.0, d.half.0, x);
    let dy = twice_off(d.anchor.1, d.half.1, y);
    dx * dx + dy * dy
}

proof fn lemma_square_fits(d: int)
    requires
        -4 * WORLD_LIMIT - 1 <= d <= 4 * WORLD_LIMIT + 1,
    ensures
        0 <= d * d <= 0x2000_0000_0000_0000_0000_0000_0000_0000,
{
    assert(0 <= d * d <= 0x4000_0000_0000_0001 * 0x4000_0000_0000_0001) by (nonlinear_arith)
        requires
            -0x4000_0000_0000_0001 <= d <= 0x4000_0000_0000_0001,
    ;
}

/// The owner is never outside of their own domain, wherever they are and whatever else they own.
pub proof fn law_owner_is_inside(
    d: Domain,
    owner: Seq<char>,
    anchor: (World, World),
    half: (bool, bool),
    tally: Option<Tally>,
    view_radius: World,
)
    requires
        is_domain(d, owner, anchor, half, tally, view_radius),
    ensures
        holds_point(d.bounds, anchor.0 as int, anchor.1 as int),
{
}

/// The box of a domain holds the box of every entity that it was built from.
pub proof fn law_footprint_follows_entities(spots: Seq<Spot>, owner: Seq<char>, at: int)
    requires
        0 <= at < spots.len(),
        spots[at].owner == owner,
    ensures
        tally_of(spots, owner) is Some,
        joined(tally_of(spots, owner)->0.bounds, spots[at].bounds) == tally_of(
            spots,
            owner,
        )->0.bounds,
    decreases spots.len(),
{
    if at < spots.len() - 1 {
        assert(spots.drop_last()[at] == spots[at]);
        law_footprint_follows_entities(spots.drop_last(), owner, at);
    }
}

impl Ranked for Domain {
    open spec fn before(&self, other: &Self) -> bool {
        text_below(self.owner@, other.owner@)
    }

    fn goes_before(&self, other: &Self) -> (r: bool) {
        text_less(self.owner.as_str(), other.owner.as_str())
    }

    proof fn before_asymmetric(a: &Self, b: &Self) {
        lemma_text_order(a.owner@, b.owner@, a.owner@);
    }

    proof fn before_negatively_transitive(a: &Self, b: &Self, c: &Self) {
        lemma_text_order(a.owner@, b.owner@, c.owner@);
        lemma_text_order(a.owner@, c.owner@, b.owner@);
        lemma_text_order(b.owner@, a.owner@, c.owner@);
        lemma_text_order(b.owner@, c.owner@, a.owner@);
        lemma_text_order(c.owner@, b.owner@, a.owner@);
        lemma_text_order(c.owner@, a.owner@, b.owner@);
    }
}

/// A tree of boxes: each branch has the box around its two halves.
pub enum TreeNode {
    Leaf(usize),
    Branch { bounds: Bounds, lo: Box<TreeNode>, hi: Box<TreeNode> },
}

/// The box of a node.
pub open spec fn node_box(n: TreeNode, boxes: Seq<Bounds>) -> Bounds {
    match n {
        TreeNode::Leaf(i) => boxes[i as int],
        TreeNode::Branch { bounds, lo, hi } => bounds,
    }
}

/// The leaves of a tree, from left to right.
pub open spec fn leaf_list(n: TreeNode) -> Seq<usize>
    decreases n,
{
    match n {
        TreeNode::Leaf(i) => seq![i],
        TreeNode::Branch { bounds, lo, hi } => leaf_list(*lo) + leaf_list(*hi),
    }
}

/// Every leaf names a box, and every branch has the box around its halves.
pub open spec fn sound(n: TreeNode, boxes: Seq<Bounds>) -> bool
    decreases n,
{
    match n {
        TreeNode::Leaf(i) => i < boxes.len(),
        TreeNode::Branch { bounds, lo, hi } => {
            &&& sound(*lo, boxes)
            &&& sound(*hi, boxes)
            &&& bounds == joined(node_box(*lo, boxes), node_box(*hi, boxes))
        },
    }
}

/// A box by the position of its middle along an axis.
#[derive(Debug, Clone, Copy, PartialEq, Eq, Structural)]
pub struct Placed {
    /// Twice the coordinate of the middle.
    pub twice: i128,
    pub at: usize,
}

impl Ranked for Placed {
    open spec fn before(&self, other: &Self) -> bool {
        self.twice < other.twice || (self.twice == other.twice && self.at < other.at)
    }

    fn goes_before(&self, other: &Self) -> (r: bool) {
        self.twice < other.twice || (self.twice == other.twice && self.at < other.at)
    }

    proof fn before_asymmetric(a: &Self, b: &Self) {
    }

    proof fn before_negatively_transitive(a: &Self, b: &Self, c: &Self) {
    }
}

/// The box around the first `n` of some boxes.
pub open spec fn hull(idx: Seq<usize>, boxes: Seq<Bounds>, n: nat) -> Bounds
    decreases n,
{
    if n <= 1 {
        boxes[idx[0] as int]
    } else {
        joined(hull(idx, boxes, (n - 1) as nat), boxes[idx[n - 1] as int])
    }
}

/// The boxes are spread more widely in x than in y.
pub open spec fn wide_in_x(idx: Seq<usize>, boxes: Seq<Bounds>) -> bool {
    let h = hull(idx, boxes, idx.len());
    h.max_x - h.min_x >= h.max_y - h.min_y
}

pub open spec fn placed_at(boxes: Seq<Bounds>, in_x: bool) -> spec_fn(usize) -> Placed {
    |i: usize|
        Placed {
            twice: (if in_x {
                boxes[i as int].min_x + boxes[i as int].max_x
            } else {
                boxes[i as int].min_y + boxes[i as int].max_y
            }) as i128,
            at: i,
        }
}

/// The boxes in the order of their middles along the axis in which they are spread more widely.
pub open spec fn arranged(idx: Seq<usize>, boxes: Seq<Bounds>) -> Seq<usize> {
    stably_sorted(
        idx.map_values(placed_at(boxes, wide_in_x(idx, boxes))),
    ).map_values(|p: Placed| p.at)
}

pub proof fn lemma_arranged(idx: Seq<usize>, boxes: Seq<Bounds>)
    ensures
        arranged(idx, boxes).len() == idx.len(),
        arranged(idx, boxes).to_multiset() == idx.to_multiset(),
{
    let f = placed_at(boxes, wide_in_x(idx, boxes));
    let g = |p: Placed| p.at;
    let s = idx.map_values(f);
    lemma_stably_sorted(s);
    lemma_map_multiset(stably_sorted(s), s, g);
    assert(s.map_values(g) =~= idx);
}

proof fn lemma_map_multiset<A, B>(a: Seq<A>, b: Seq<A>, g: spec_fn(A) -> B)
    requires
        a.to_multiset() == b.to_multiset(),
    ensures
        a.map_values(g).to_multiset() == b.map_values(g).to_multiset(),
    decreases a.len(),
{
    broadcast use vstd::seq_lib::group_to_multiset_ensures;

    assert(a.to_multiset().len() == a.len());
    assert(b.to_multiset().len() == b.len());
    if a.len() == 0 {
        assert(a.map_values(g) =~= b.map_values(g));
    } else {
        let x = a.last();
        vstd::seq_lib::to_multiset_contains(a, x);
        vstd::seq_lib::to_multiset_contains(b, x);
        assert(a.contains(x));
        let k = choose|k: int| 0 <= k < b.len() && b[k] == x;
        let a1 = a.drop_last();
        let b1 = b.remove(k);
        assert(a =~= a1.push(x));
        assert(a1.to_multiset() =~= a.to_multiset().remove(x));
        assert(b1.to_multiset() =~= b.to_multiset().remove(x));
        lemma_map_multiset(a1, b1, g);
        assert(a.map_values(g) =~= a1.map_values(g).push(g(x)));
        assert(b1.map_values(g) =~= b.map_values(g).remove(k));
        assert(b.map_values(g)[k] == g(x));
        assert(b.map_values(g).to_multiset() =~= b1.map_values(g).to_multiset().insert(g(x)));
    }
}

/// The tree over some boxes: they are halved in order, down to single boxes.
pub open spec fn tree_of(idx: Seq<usize>, boxes: Seq<Bounds>) -> Option<TreeNode>
    decreases idx.len(),
{
    if idx.len() == 0 {
        None
    } else if idx.len() == 1 {
        Some(TreeNode::Leaf(idx[0]))
    } else {
        proof {
            lemma_arranged(idx, boxes);
        }
        let mid = (idx.len() / 2) as int;
        let sorted = arranged(idx, boxes);
        match (
            tree_of(sorted.subrange(0, mid), boxes),
            tree_of(sorted.subrange(mid, idx.len() as int), boxes),
        ) {
            (Some(lo), Some(hi)) => Some(
                TreeNode::Branch {
                    bounds: joined(node_box(lo, boxes), node_box(hi, boxes)),
                    lo: Box::new(lo),
                    hi: Box::new(hi),
                },
            ),
            _ => None,
        }
    }
}

proof fn lemma_tree(idx: Seq<usize>, boxes: Seq<Bounds>)
    requires
        forall|i: int| 0 <= i < idx.len() ==> (#[trigger] idx[i]) < boxes.len(),
    ensures
        tree_of(idx, boxes) is Some <==> idx.len() > 0,
        tree_of(idx, boxes) matches Some(t) ==> sound(t, boxes) && leaf_list(t).to_multiset()
            == idx.to_multiset(),
    decreases idx.len(),
{
    broadcast use vstd::seq_lib::group_to_multiset_ensures;

    if idx.len() == 1 {
        assert(leaf_list(TreeNode::Leaf(idx[0])) =~= idx);
    } else if idx.len() > 1 {
        lemma_arranged(idx, boxes);
        let mid = (idx.len() / 2) as int;
        let sorted = arranged(idx, boxes);
        let left = sorted.subrange(0, mid);
        let right = sorted.subrange(mid, idx.len() as int);
        assert forall|i: int| 0 <= i < sorted.len() implies (#[trigger] sorted[i]) < boxes.len() by {
            assert(sorted.contains(sorted[i]));
            vstd::seq_lib::to_multiset_contains(sorted, sorted[i]);
            vstd::seq_lib::to_multiset_contains(idx, sorted[i]);
            assert(idx.contains(sorted[i]));
        }
        lemma_tree(left, boxes);
        lemma_tree(right, boxes);
        assert(sorted =~= left + right);
        vstd::seq_lib::lemma_multiset_commutative(left, right);
        let lo = tree_of(left, boxes)->0;
        let hi = tree_of(right, boxes)->0;
        vstd::seq_lib::lemma_multiset_commutative(leaf_list(lo), leaf_list(hi));
    }
}

/// A leaf whose box overlaps the query lies under a node whose box does.
proof fn lemma_prune(n: TreeNode, boxes: Seq<Bounds>, q: Bounds, k: int)
    requires
        sound(n, boxes),
        0 <= k < leaf_list(n).len(),
        overlaps(boxes[leaf_list(n)[k] as int], q),
    ensures
        overlaps(node_box(n, boxes), q),
    decreases n,
{
    match n {
        TreeNode::Leaf(i) => {},
        TreeNode::Branch { bounds, lo, hi } => {
            let a = leaf_list(*lo);
            if k < a.len() {
                assert(leaf_list(n)[k] == a[k]);
                lemma_prune(*lo, boxes, q, k);
            } else {
                assert(leaf_list(n)[k] == leaf_list(*hi)[k - a.len()]);
                lemma_prune(*hi, boxes, q, k - a.len());
            }
        },
    }
}

impl TreeNode {
    fn bounds(&self, boxes: &Vec<Bounds>) -> (b: Bounds)
        requires
            sound(*self, boxes@),
        ensures
            b == node_box(*self, boxes@),
    {
        match self {
            TreeNode::Leaf(i) => boxes[*i],
            TreeNode::Branch { bounds, lo, hi } => *bounds,
        }
    }
}

fn hull_of(idx: &Vec<usize>, boxes: &Vec<Bounds>) -> (b: Bounds)
    requires
        idx@.len() > 0,
        forall|i: int| 0 <= i < idx@.len() ==> (#[trigger] idx@[i]) < boxes@.len(),
    ensures
        b == hull(idx@, boxes@, idx@.len()),
{
    let mut acc: Bounds = boxes[idx[0]];
    let mut i: usize = 1;
    while i < idx.len()
        invariant
            1 <= i <= idx@.len(),
            forall|j: int| 0 <= j < idx@.len() ==> (#[trigger] idx@[j]) < boxes@.len(),
            acc == hull(idx@, boxes@, i as nat),
        decreases idx@.len() - i,
    {
        acc = acc.union(&boxes[idx[i]]);
        i = i + 1;
    }
    acc
}

fn arrange(idx: &Vec<usize>, boxes: &Vec<Bounds>) -> (r: Vec<usize>)
    requires
        idx@.len() > 0,
        forall|i: int| 0 <= i < idx@.len() ==> (#[trigger] idx@[i]) < boxes@.len(),
    ensures
        r@ == arranged(idx@, boxes@),
{
    let h = hull_of(idx, boxes);
    let in_x: bool = h.max_x as i128 - h.min_x as i128 >= h.max_y as i128 - h.min_y as i128;
    let ghost f = placed_at(boxes@, in_x);
    let mut items: Vec<Placed> = Vec::new();
    let mut i: usize = 0;
    while i < idx.len()
        invariant
            i <= idx@.len(),
            forall|j: int| 0 <= j < idx@.len() ==> (#[trigger] idx@[j]) < boxes@.len(),
            f == placed_at(boxes@, in_x),
            items@.len() == i,
            forall|j: int| 0 <= j < i ==> #[trigger] items@[j] == f(idx@[j]),
        decreases idx@.len() - i,
    {
        let b: Bounds = boxes[idx[i]];
        let twice: i128 = if in_x {
            b.min_x as i128 + b.max_x as i128
        } else {
            b.min_y as i128 + b.max_y as i128
        };
        items.push(Placed { twice, at: idx[i] });
        i = i + 1;
    }
    assert(items@ =~= idx@.map_values(f));
    let sorted = sort_stably(items);
    let mut out: Vec<usize> = Vec::new();
    let mut k: usize = 0;
    while k < sorted.len()
        invariant
            k <= sorted@.len(),
            out@.len() == k,
            forall|j: int| 0 <= j < k ==> #[trigger] out@[j] == sorted@[j].at,
        decreases sorted@.len() - k,
    {
        out.push(sorted[k].at);
        k = k + 1;
    }
    assert(out@ =~= arranged(idx@, boxes@));
    out
}

fn part_of(v: &Vec<usize>, from: usize, to: usize) -> (r: Vec<usize>)
    requires
        from <= to <= v@.len(),
    ensures
        r@ == v@.subrange(from as int, to as int),
{
    let mut out: Vec<usize> = Vec::new();
    let mut i: usize = from;
    while i < to
        invariant
            from <= i <= to <= v@.len(),
            out@ == v@.subrange(from as int, i as int),
        decreases to - i,
    {
        out.push(v[i]);
        i = i + 1;
        assert(out@ =~= v@.subrange(from as int, i as int));
    }
    out
}

/// Builds the tree over some boxes.
fn build_tree(idx: &Vec<usize>, boxes: &Vec<Bounds>) -> (r: Option<TreeNode>)
    requires
        forall|i: int| 0 <= i < idx@.len() ==> (#[trigger] idx@[i]) < boxes@.len(),
    ensures
        r == tree_of(idx@, boxes@),
    decreases idx@.len(),
{
    if idx.len() == 0 {
        return None;
    }
    if idx.len() == 1 {
        return Some(TreeNode::Leaf(idx[0]));
    }
    let sorted = arrange(idx, boxes);
    proof {
        lemma_arranged(idx@, boxes@);
        assert forall|i: int| 0 <= i < sorted@.len() implies (#[trigger] sorted@[i])
            < boxes@.len() by {
            assert(sorted@.contains(sorted@[i]));
            vstd::seq_lib::to_multiset_contains(sorted@, sorted@[i]);
            vstd::seq_lib::to_multiset_contains(idx@, sorted@[i]);
            assert(idx@.contains(sorted@[i]));
        }
    }
    let mid: usize = idx.len() / 2;
    let left = part_of(&sorted, 0, mid);
    let right = part_of(&sorted, mid, idx.len());
    proof {
        lemma_tree(left@, boxes@);
        lemma_tree(right@, boxes@);
    }
    match (build_tree(&left, boxes), build_tree(&right, boxes)) {
        (Some(lo), Some(hi)) => {
            let bounds = lo.bounds(boxes).union(&hi.bounds(boxes));
            Some(TreeNode::Branch { bounds, lo: Box::new(lo), hi: Box::new(hi) })
        },
        _ => None,
    }
}

/// The numbers below `n`.
pub open spec fn indices(n: nat) -> Seq<usize> {
    Seq::new(n, |i: int| i as usize)
}

/// The boxes that overlap the query.
pub open spec fn touched(boxes: Seq<Bounds>, q: Bounds) -> spec_fn(usize) -> bool {
    |i: usize| overlaps(boxes[i as int], q)
}

/// The domains that are alive, and the tree of their boxes.
pub struct DomainField {
    pub domains: Vec<Domain>,
    pub boxes: Vec<Bounds>,
    pub root: Option<TreeNode>,
}

/// The first domain of an owner.
pub open spec fn named(domains: Seq<Domain>, owner: Seq<char>) -> Option<Domain>
    decreases domains.len(),
{
    if domains.len() == 0 {
        None
    } else {
        match named(domains.drop_last(), owner) {
            Some(d) => Some(d),
            None => if domains.last().owner@ == owner {
                Some(domains.last())
            } else {
                None
            },
        }
    }
}

/// The domain may claim the point: it holds it, or its anchor is within reach.
pub open spec fn may_claim(d: Domain, x: int, y: int, reach: int) -> bool {
    holds_point(d.bounds, x, y) || distance4(d, x, y) <= 4 * (reach * reach)
}

/// A domain that holds the point goes before one that does not; then the nearer anchor goes first; then
/// the smaller owner.
pub open spec fn claims_before(d: Domain, b: Domain, x: int, y: int) -> bool {
    let dh = holds_point(d.bounds, x, y);
    let bh = holds_point(b.bounds, x, y);
    let dd = distance4(d, x, y);
    let bd = distance4(b, x, y);
    (dh && !bh) || (dh == bh && (dd < bd || (dd == bd && text_below(d.owner@, b.owner@))))
}

/// The domain that claims a point.
pub open spec fn claimant(domains: Seq<Domain>, x: int, y: int, reach: int) -> Option<Domain>
    decreases domains.len(),
{
    if domains.len() == 0 {
        None
    } else {
        let best = claimant(domains.drop_last(), x, y, reach);
        let d = domains.last();
        if !may_claim(d, x, y, reach) {
            best
        } else {
            match best {
                None => Some(d),
                Some(b) => if claims_before(d, b, x, y) {
                    Some(d)
                } else {
                    Some(b)
                },
            }
        }
    }
}

/// The owner of a point that was owned by `prev`: that stays so, unless `prev` is gone or out of reach,
/// or the claimant is nearer by more than the margin.
pub open spec fn sticky_owner(
    domains: Seq<Domain>,
    x: int,
    y: int,
    reach: int,
    prev: Seq<char>,
    hysteresis: int,
) -> Option<Seq<char>> {
    match claimant(domains, x, y, reach) {
        None => None,
        Some(fresh) => match named(domains, prev) {
            None => Some(fresh.owner@),
            Some(p) => {
                let nearest = named(domains, fresh.owner@)->0;
                if fresh.owner@ == prev || distance4(p, x, y) > 4 * (reach * reach) || distance4(
                    p,
                    x,
                    y,
                ) - distance4(nearest, x, y) > 4 * hysteresis {
                    Some(fresh.owner@)
                } else {
                    Some(prev)
                }
            },
        },
    }
}

/// The entities of all domains together.
pub open spec fn entity_sum(domains: Seq<Domain>) -> nat
    decreases domains.len(),
{
    if domains.len() == 0 {
        0
    } else {
        entity_sum(domains.drop_last()) + domains.last().entities as nat
    }
}

pub open spec fn domain_at(domains: Seq<Domain>) -> spec_fn(usize) -> Domain {
    |i: usize| domains[i as int]
}

pub open spec fn of_others(owner: Seq<char>) -> spec_fn(Domain) -> bool {
    |d: Domain| d.owner@ != owner
}

/// The domains that an owner sees: those of others whose box overlaps theirs, in the order of the tree.
pub open spec fn seen_from(f: DomainField, owner: Seq<char>) -> Seq<Domain> {
    match (named(f.domains@, owner), f.root) {
        (Some(me), Some(root)) => leaf_list(root).filter(
            touched(f.boxes@, me.interest),
        ).map_values(domain_at(f.domains@)).filter(of_others(owner)),
        _ => Seq::empty(),
    }
}

/// The world position of a point of a sector.
pub open spec fn world_of(sector: SectorId, lx: int, ly: int) -> (int, int) {
    (sector.sx * 9000 + lx, sector.sy * 9000 + ly)
}

/// The world position of a point of a sector.
pub fn world_pos(sector: SectorId, lx: i32, ly: i32) -> (p: (World, World))
    ensures
        (p.0 as int, p.1 as int) == world_of(sector, lx as int, ly as int),
        in_world(p.0 as int),
        in_world(p.1 as int),
{
    (sector.sx as i64 * 9000 + lx as i64, sector.sy as i64 * 9000 + ly as i64)
}

/// Whose node is authoritative for a ship: that of its fleet's player, or of its pilot.
pub open spec fn authority(id: Seq<char>, ship: Ship) -> Seq<char> {
    match ship.owner {
        Some(o) => o@,
        None => id,
    }
}

/// A ship as far as bubbles go. A pilot's own ship anchors their bubble.
pub open spec fn ship_spot(sector: SectorId, id: Seq<char>, ship: Ship) -> Spot {
    let p = world_of(sector, ship.body.x as int, ship.body.y as int);
    let at = (p.0 as World, p.1 as World);
    let owner = authority(id, ship);
    Spot {
        owner,
        bounds: grown(point_box(at.0, at.1), 14),
        anchor: if owner == id {
            Some(at)
        } else {
            None
        },
    }
}

/// The ships of a sector as far as bubbles go.
pub open spec fn ship_spots(sector: SectorId, ids: Seq<String>, ships: Seq<Ship>) -> Seq<Spot> {
    Seq::new(ids.len(), |i: int| ship_spot(sector, ids[i]@, ships[i]))
}

/// What a table of tallies holds for the entities that were counted into it.
spec fn tabled(table: Map<Seq<char>, Tally>, spots: Seq<Spot>) -> bool {
    forall|o: Seq<char>|
        #![trigger table.contains_key(o)]
        #![trigger tally_of(spots, o)]
        tally_of(spots, o) == (if table.contains_key(o) {
            Some(table[o])
        } else {
            None
        })
}

fn count_in(
    table: &mut SortedMap<String, Tally>,
    owner: String,
    b: Bounds,
    anchor: Option<(World, World)>,
    Ghost(spots): Ghost<Seq<Spot>>,
)
    requires
        old(table).wf(),
        tabled(old(table)@, spots),
        spots.len() < u32::MAX,
        forall|i: int| 0 <= i < spots.len() ==> box_in_world((#[trigger] spots[i]).bounds),
    ensures
        final(table).wf(),
        tabled(
            final(table)@,
            spots.push(Spot { owner: owner@, bounds: b, anchor }),
        ),
{
    let ghost before = table@;
    let so_far: Option<Tally> = match table.get(&owner) {
        Some(t) => Some(*t),
        None => None,
    };
    let ghost s = Spot { owner: owner@, bounds: b, anchor };
    let ghost o = owner@;
    proof {
        assert(before.contains_key(o) ==> tally_of(spots, o) == Some(before[o]));
        lemma_tally_in_world(spots, o);
    }
    let next = tally_with(so_far, b, anchor, Ghost(owner@));
    let _ = table.insert(owner, next);
    proof {
        let all = spots.push(s);
        assert(all.drop_last() =~= spots);
        assert forall|p: Seq<char>| tally_of(all, p) == (if table@.contains_key(p) {
            Some(table@[p])
        } else {
            None
        }) by {
            assert(tally_of(spots, p) == (if before.contains_key(p) {
                Some(before[p])
            } else {
                None
            }));
        }
    }
}

/// The owners stand in strictly ascending order.
pub open spec fn owners_ascend(domains: Seq<Domain>) -> bool {
    forall|i: int, j: int|
        0 <= i < j < domains.len() ==> text_below(
            (#[trigger] domains[i]).owner@,
            (#[trigger] domains[j]).owner@,
        )
}

pub open spec fn has_domain(domains: Seq<Domain>, owner: Seq<char>) -> bool {
    exists|i: int| 0 <= i < domains.len() && (#[trigger] domains[i]).owner@ == owner
}

impl DomainField {
    pub open spec fn wf(&self) -> bool {
        &&& in_order(self.domains@)
        &&& self.boxes@ == self.domains@.map_values(|d: Domain| d.interest)
        &&& self.root == tree_of(indices(self.boxes@.len()), self.boxes@)
        &&& forall|i: int|
            0 <= i < self.domains@.len() ==> in_world((#[trigger] self.domains@[i]).anchor.0 as int)
                && in_world(self.domains@[i].anchor.1 as int)
    }

    /// The field of some domains. They are ordered by owner, so that the tree does not depend on the
    /// order in which they are given.
    pub fn new(domains: Vec<Domain>) -> (f: Self)
        requires
            forall|i: int|
                0 <= i < domains@.len() ==> in_world((#[trigger] domains@[i]).anchor.0 as int)
                    && in_world(domains@[i].anchor.1 as int),
        ensures
            f.wf(),
            f.domains@ == stably_sorted(domains@),
    {
        let ghost given = domains@;
        let domains = sort_stably(domains);
        proof {
            lemma_stably_sorted(given);
            assert forall|i: int| 0 <= i < domains@.len() implies in_world(
                (#[trigger] domains@[i]).anchor.0 as int,
            ) && in_world(domains@[i].anchor.1 as int) by {
                crate::sort::lemma_sorted_contains(given, domains@[i]);
                assert(given.contains(domains@[i]));
            }
        }
        let mut boxes: Vec<Bounds> = Vec::new();
        let mut idx: Vec<usize> = Vec::new();
        let mut i: usize = 0;
        while i < domains.len()
            invariant
                i <= domains@.len(),
                boxes@.len() == i,
                idx@.len() == i,
                forall|j: int| 0 <= j < i ==> #[trigger] boxes@[j] == domains@[j].interest,
                forall|j: int| 0 <= j < i ==> #[trigger] idx@[j] == j,
            decreases domains@.len() - i,
        {
            boxes.push(domains[i].interest);
            idx.push(i);
            i = i + 1;
        }
        assert(boxes@ =~= domains@.map_values(|d: Domain| d.interest));
        assert(idx@ =~= indices(boxes@.len()));
        let root = build_tree(&idx, &boxes);
        DomainField { domains, boxes, root }
    }

    pub fn domains(&self) -> (r: &Vec<Domain>)
        ensures
            r@ == self.domains@,
    {
        &self.domains
    }

    fn position(&self, owner: &str) -> (r: Option<usize>)
        ensures
            match r {
                Some(i) => i < self.domains@.len() && named(self.domains@, owner@) == Some(
                    self.domains@[i as int],
                ) && self.domains@[i as int].owner@ == owner@,
                None => named(self.domains@, owner@) is None,
            },
    {
        let mut i: usize = 0;
        assert(self.domains@.subrange(0, 0) =~= Seq::<Domain>::empty());
        while i < self.domains.len()
            invariant
                i <= self.domains@.len(),
                named(self.domains@.subrange(0, i as int), owner@) is None,
            decreases self.domains@.len() - i,
        {
            let ghost next = self.domains@.subrange(0, i + 1);
            assert(next.drop_last() =~= self.domains@.subrange(0, i as int));
            if same_text(self.domains[i].owner.as_str(), owner) {
                proof {
                    lemma_named_early(self.domains@, owner@, i + 1);
                }
                return Some(i);
            }
            i = i + 1;
        }
        assert(self.domains@.subrange(0, i as int) =~= self.domains@);
        None
    }

    /// The domain of an owner.
    pub fn get(&self, owner: &str) -> (r: Option<&Domain>)
        ensures
            match r {
                Some(d) => named(self.domains@, owner@) == Some(*d),
                None => named(self.domains@, owner@) is None,
            },
    {
        match self.position(owner) {
            Some(i) => Some(&self.domains[i]),
            None => None,
        }
    }

    fn descend(&self, node: &TreeNode, query: &Bounds, out: &mut Vec<usize>)
        requires
            sound(*node, self.boxes@),
        ensures
            final(out)@ == old(out)@ + leaf_list(*node).filter(touched(self.boxes@, *query)),
        decreases *node,
    {
        let ghost p = touched(self.boxes@, *query);
        let ghost before = out@;
        if !node.bounds(&self.boxes).intersects(query) {
            proof {
                assert forall|k: int| 0 <= k < leaf_list(*node).len() implies !p(
                    #[trigger] leaf_list(*node)[k],
                ) by {
                    if p(leaf_list(*node)[k]) {
                        lemma_prune(*node, self.boxes@, *query, k);
                    }
                }
                crate::sort::lemma_filter_none(leaf_list(*node), p);
                assert(before + Seq::<usize>::empty() =~= before);
            }
            return ;
        }
        match node {
            TreeNode::Leaf(i) => {
                proof {
                    assert(leaf_list(*node) =~= Seq::<usize>::empty().push(*i));
                    lemma_filter_push(Seq::<usize>::empty(), *i, p);
                    reveal(Seq::filter);
                    assert(p(*i));
                    assert(before.push(*i) =~= before + leaf_list(*node).filter(p));
                }
                out.push(*i);
            },
            TreeNode::Branch { bounds, lo, hi } => {
                self.descend(lo, query, out);
                self.descend(hi, query, out);
                proof {
                    Seq::filter_distributes_over_add(leaf_list(**lo), leaf_list(**hi), p);
                    assert(out@ =~= before + leaf_list(*node).filter(p));
                }
            },
        }
    }

    fn query(&self, query: &Bounds) -> (r: Vec<usize>)
        requires
            self.wf(),
        ensures
            match self.root {
                Some(root) => r@ == leaf_list(root).filter(touched(self.boxes@, *query)),
                None => r@ == Seq::<usize>::empty(),
            },
            forall|k: int| 0 <= k < r@.len() ==> (#[trigger] r@[k]) < self.domains@.len(),
    {
        let mut out: Vec<usize> = Vec::new();
        proof {
            lemma_tree(indices(self.boxes@.len()), self.boxes@);
        }
        if let Some(root) = &self.root {
            self.descend(root, query, &mut out);
            proof {
                let p = touched(self.boxes@, *query);
                assert(out@ =~= leaf_list(*root).filter(p));
                assert forall|k: int| 0 <= k < out@.len() implies (#[trigger] out@[k])
                    < self.domains@.len() by {
                    lemma_filter_holds(leaf_list(*root), p, out@[k]);
                    assert(out@.contains(out@[k]));
                    lemma_leaves_are_indices(*self, out@[k]);
                }
            }
        }
        out
    }

    /// The domains that the owner sees: those of others whose box overlaps theirs.
    pub fn interest(&self, owner: &str) -> (r: Vec<&Domain>)
        requires
            self.wf(),
        ensures
            r@.len() == seen_from(*self, owner@).len(),
            forall|i: int| 0 <= i < r@.len() ==> *(#[trigger] r@[i]) == seen_from(*self, owner@)[i],
    {
        let mut out: Vec<&Domain> = Vec::new();
        let me: &Domain = match self.get(owner) {
            Some(d) => d,
            None => {
                return out;
            },
        };
        let hits = self.query(&me.interest);
        let ghost f = domain_at(self.domains@);
        let ghost p = of_others(owner@);
        let ghost all = hits@.map_values(f);
        let mut i: usize = 0;
        proof {
            reveal(Seq::filter);
            assert(all.subrange(0, 0) =~= Seq::<Domain>::empty());
            if self.root is None {
                assert(all =~= Seq::<Domain>::empty());
            }
        }
        while i < hits.len()
            invariant
                i <= hits@.len(),
                f == domain_at(self.domains@),
                p == of_others(owner@),
                all == hits@.map_values(f),
                forall|k: int| 0 <= k < hits@.len() ==> (#[trigger] hits@[k]) < self.domains@.len(),
                out@.len() == all.subrange(0, i as int).filter(p).len(),
                forall|k: int|
                    0 <= k < out@.len() ==> *(#[trigger] out@[k]) == all.subrange(
                        0,
                        i as int,
                    ).filter(p)[k],
            decreases hits@.len() - i,
        {
            let d: &Domain = &self.domains[hits[i]];
            proof {
                let seen = all.subrange(0, i as int);
                assert(all[i as int] == *d);
                assert(all.subrange(0, i + 1) =~= seen.push(*d));
                lemma_filter_push(seen, *d, p);
            }
            if !same_text(d.owner.as_str(), owner) {
                out.push(d);
            }
            i = i + 1;
        }
        assert(all.subrange(0, i as int) =~= all);
        out
    }

    fn claim_at(&self, x: World, y: World, reach: World) -> (r: Option<usize>)
        requires
            self.wf(),
            in_world(x as int),
            in_world(y as int),
        ensures
            match r {
                Some(i) => i < self.domains@.len() && claimant(
                    self.domains@,
                    x as int,
                    y as int,
                    reach as int,
                ) == Some(self.domains@[i as int]),
                None => claimant(self.domains@, x as int, y as int, reach as int) is None,
            },
    {
        proof {
            assert(0 <= reach * reach <= 0x4000_0000_0000_0000_0000_0000_0000_0000)
                by (nonlinear_arith)
                requires
                    -0x8000_0000_0000_0000 <= reach <= 0x7fff_ffff_ffff_ffff,
            ;
        }
        let reach2: i128 = reach as i128 * reach as i128;
        let mut best: Option<usize> = None;
        let mut i: usize = 0;
        assert(self.domains@.subrange(0, 0) =~= Seq::<Domain>::empty());
        while i < self.domains.len()
            invariant
                i <= self.domains@.len(),
                self.wf(),
                in_world(x as int),
                in_world(y as int),
                reach2 == reach * reach,
                match best {
                    Some(k) => k < self.domains@.len() && claimant(
                        self.domains@.subrange(0, i as int),
                        x as int,
                        y as int,
                        reach as int,
                    ) == Some(self.domains@[k as int]),
                    None => claimant(
                        self.domains@.subrange(0, i as int),
                        x as int,
                        y as int,
                        reach as int,
                    ) is None,
                },
            decreases self.domains@.len() - i,
        {
            let d = &self.domains[i];
            proof {
                let next = self.domains@.subrange(0, i + 1);
                assert(next.drop_last() =~= self.domains@.subrange(0, i as int));
                assert(next.last() == *d);
                assert(in_world(self.domains@[i as int].anchor.0 as int));
            }
            let contained: bool = d.bounds.contains_point(x, y);
            let d4: i128 = d.anchor_d4(x, y);
            if contained || (d4 + 3) / 4 <= reach2 {
                let better: bool = match best {
                    None => true,
                    Some(k) => {
                        let b = &self.domains[k];
                        assert(in_world(self.domains@[k as int].anchor.0 as int));
                        let bcont: bool = b.bounds.contains_point(x, y);
                        let bd4: i128 = b.anchor_d4(x, y);
                        (contained && !bcont) || (contained == bcont && (d4 < bd4 || (d4 == bd4
                            && text_less(d.owner.as_str(), b.owner.as_str()))))
                    },
                };
                if better {
                    best = Some(i);
                }
            }
            i = i + 1;
        }
        assert(self.domains@.subrange(0, i as int) =~= self.domains@);
        best
    }

    /// The owner whose node simulates what nobody owns at a point: of those whose domain holds the
    /// point, or else of those within reach, the one whose anchor is nearest. Equally near ones are
    /// told apart by their names. Nobody claims what is out of everyone's reach.
    pub fn claim(&self, x: World, y: World, reach: World) -> (r: Option<&str>)
        requires
            self.wf(),
            in_world(x as int),
            in_world(y as int),
        ensures
            match r {
                Some(o) => claimant(self.domains@, x as int, y as int, reach as int) matches Some(d)
                    && d.owner@ == o@,
                None => claimant(self.domains@, x as int, y as int, reach as int) is None,
            },
    {
        match self.claim_at(x, y, reach) {
            Some(i) => Some(self.domains[i].owner.as_str()),
            None => None,
        }
    }

    /// As `claim`, but what `prev` owns stays with them, unless they are gone or out of reach or the
    /// claimant's anchor is nearer by more than the margin of squared distance.
    pub fn claim_sticky(
        &self,
        x: World,
        y: World,
        reach: World,
        prev: &str,
        hysteresis: World,
    ) -> (r: Option<&str>)
        requires
            self.wf(),
            in_world(x as int),
            in_world(y as int),
        ensures
            match r {
                Some(o) => sticky_owner(
                    self.domains@,
                    x as int,
                    y as int,
                    reach as int,
                    prev@,
                    hysteresis as int,
                ) == Some(o@),
                None => sticky_owner(
                    self.domains@,
                    x as int,
                    y as int,
                    reach as int,
                    prev@,
                    hysteresis as int,
                ) is None,
            },
    {
        let at: usize = match self.claim_at(x, y, reach) {
            Some(i) => i,
            None => {
                return None;
            },
        };
        let fresh: &str = self.domains[at].owner.as_str();
        let prev_at: usize = match self.position(prev) {
            Some(i) => i,
            None => {
                return Some(fresh);
            },
        };
        if same_text(fresh, prev) {
            return Some(fresh);
        }
        proof {
            assert(0 <= reach * reach <= 0x4000_0000_0000_0000_0000_0000_0000_0000)
                by (nonlinear_arith)
                requires
                    -0x8000_0000_0000_0000 <= reach <= 0x7fff_ffff_ffff_ffff,
            ;
            assert(in_world(self.domains@[prev_at as int].anchor.0 as int));
            lemma_named_somewhere(self.domains@, at as int);
        }
        let reach2: i128 = reach as i128 * reach as i128;
        let prev_d4: i128 = self.domains[prev_at].anchor_d4(x, y);
        if (prev_d4 + 3) / 4 > reach2 {
            return Some(fresh);
        }
        let near_at: usize = match self.position(fresh) {
            Some(i) => i,
            None => at,
        };
        assert(in_world(self.domains@[near_at as int].anchor.0 as int));
        let near_d4: i128 = self.domains[near_at].anchor_d4(x, y);
        if prev_d4 - near_d4 > 4 * hysteresis as i128 {
            Some(fresh)
        } else {
            Some(self.domains[prev_at].owner.as_str())
        }
    }

    /// The entities of all domains together.
    pub fn total_entities(&self) -> (n: u64)
        requires
            entity_sum(self.domains@) <= u64::MAX,
        ensures
            n == entity_sum(self.domains@),
    {
        let mut n: u64 = 0;
        let mut i: usize = 0;
        assert(self.domains@.subrange(0, 0) =~= Seq::<Domain>::empty());
        while i < self.domains.len()
            invariant
                i <= self.domains@.len(),
                n == entity_sum(self.domains@.subrange(0, i as int)),
                entity_sum(self.domains@) <= u64::MAX,
            decreases self.domains@.len() - i,
        {
            proof {
                let next = self.domains@.subrange(0, i + 1);
                assert(next.drop_last() =~= self.domains@.subrange(0, i as int));
                lemma_sum_grows(self.domains@, i + 1);
            }
            n = n + self.domains[i].entities as u64;
            i = i + 1;
        }
        assert(self.domains@.subrange(0, i as int) =~= self.domains@);
        n
    }
}

proof fn lemma_sum_grows(s: Seq<Domain>, n: int)
    requires
        0 <= n <= s.len(),
    ensures
        entity_sum(s.subrange(0, n)) <= entity_sum(s),
    decreases s.len(),
{
    if n < s.len() {
        lemma_sum_grows(s.drop_last(), n);
        assert(s.drop_last().subrange(0, n) =~= s.subrange(0, n));
    } else {
        assert(s.subrange(0, n) =~= s);
    }
}

proof fn lemma_named_early(s: Seq<Domain>, owner: Seq<char>, n: int)
    requires
        0 <= n <= s.len(),
        named(s.subrange(0, n), owner) is Some,
    ensures
        named(s, owner) == named(s.subrange(0, n), owner),
    decreases s.len(),
{
    if n < s.len() {
        assert(s.drop_last().subrange(0, n) =~= s.subrange(0, n));
        lemma_named_early(s.drop_last(), owner, n);
    } else {
        assert(s.subrange(0, n) =~= s);
    }
}

proof fn lemma_named_somewhere(s: Seq<Domain>, at: int)
    requires
        0 <= at < s.len(),
    ensures
        named(s, s[at].owner@) is Some,
        named(s, s[at].owner@)->0.owner@ == s[at].owner@,
    decreases s.len(),
{
    let owner = s[at].owner@;
    if at < s.len() - 1 {
        assert(s.drop_last()[at] == s[at]);
        lemma_named_somewhere(s.drop_last(), at);
    } else if named(s.drop_last(), owner) is Some {
        lemma_named_owner(s.drop_last(), owner);
    }
}

proof fn lemma_named_owner(s: Seq<Domain>, owner: Seq<char>)
    requires
        named(s, owner) is Some,
    ensures
        named(s, owner)->0.owner@ == owner,
    decreases s.len(),
{
    if named(s.drop_last(), owner) is Some {
        lemma_named_owner(s.drop_last(), owner);
    }
}

/// An owner has a domain where one can be found by name, and it is one of the domains.
pub proof fn lemma_named_where(s: Seq<Domain>, owner: Seq<char>)
    ensures
        named(s, owner) is Some <==> has_domain(s, owner),
        named(s, owner) matches Some(d) ==> s.contains(d) && d.owner@ == owner,
    decreases s.len(),
{
    if s.len() > 0 {
        let rest = s.drop_last();
        lemma_named_where(rest, owner);
        if has_domain(rest, owner) {
            let i = choose|i: int| 0 <= i < rest.len() && (#[trigger] rest[i]).owner@ == owner;
            assert(s[i].owner@ == owner);
        }
        if named(rest, owner) is Some {
            let d = named(rest, owner)->0;
            let i = choose|i: int| 0 <= i < rest.len() && rest[i] == d;
            assert(s[i] == d);
        }
        assert(s[s.len() - 1] == s.last());
        if has_domain(s, owner) && !has_domain(rest, owner) {
            let i = choose|i: int| 0 <= i < s.len() && (#[trigger] s[i]).owner@ == owner;
            if i < rest.len() {
                assert(rest[i].owner@ == owner);
            }
        }
    }
}

proof fn lemma_leaves_are_indices(f: DomainField, i: usize)
    requires
        f.wf(),
        f.root is Some,
    ensures
        leaf_list(f.root->0).contains(i) <==> i < f.domains@.len(),
{
    let all = indices(f.boxes@.len());
    lemma_tree(all, f.boxes@);
    vstd::seq_lib::to_multiset_contains(leaf_list(f.root->0), i);
    vstd::seq_lib::to_multiset_contains(all, i);
    if i < f.domains@.len() {
        assert(all[i as int] == i);
        assert(all.contains(i));
    }
    if all.contains(i) {
        let k = choose|k: int| 0 <= k < all.len() && all[k] == i;
        assert(i < all.len());
    }
}

/// The tree finds what a scan of all domains would: an owner sees exactly the domains of others whose
/// box overlaps theirs.
pub proof fn law_interest_matches_a_scan(f: DomainField, owner: Seq<char>, me: Domain, d: Domain)
    requires
        f.wf(),
        named(f.domains@, owner) == Some(me),
    ensures
        seen_from(f, owner).contains(d) <==> f.domains@.contains(d) && d.owner@ != owner && overlaps(
            d.interest,
            me.interest,
        ),
{
    let p = touched(f.boxes@, me.interest);
    let g = domain_at(f.domains@);
    let q = of_others(owner);
    lemma_tree(indices(f.boxes@.len()), f.boxes@);
    let root = f.root->0;
    let hits = leaf_list(root).filter(p);
    let mapped = hits.map_values(g);
    lemma_filter_holds(mapped, q, d);
    if seen_from(f, owner).contains(d) {
        let j = choose|j: int| 0 <= j < mapped.len() && mapped[j] == d;
        assert(hits.contains(hits[j]));
        lemma_filter_holds(leaf_list(root), p, hits[j]);
        lemma_leaves_are_indices(f, hits[j]);
        assert(f.domains@[hits[j] as int] == d);
        assert(f.boxes@[hits[j] as int] == d.interest);
    }
    if f.domains@.contains(d) && d.owner@ != owner && overlaps(d.interest, me.interest) {
        let i = choose|i: int| 0 <= i < f.domains@.len() && f.domains@[i] == d;
        lemma_vec_index(f, i);
        lemma_leaves_are_indices(f, i as usize);
        assert(f.boxes@[i] == d.interest);
        assert(p(i as usize));
        lemma_filter_holds(leaf_list(root), p, i as usize);
        let j = choose|j: int| 0 <= j < hits.len() && hits[j] == i as usize;
        assert(mapped[j] == d);
    }
}

proof fn lemma_vec_index(f: DomainField, i: int)
    requires
        0 <= i < f.domains@.len(),
    ensures
        (i as usize) as int == i,
{
    assert(f.domains.len() <= usize::MAX);
}

/// Overlap is mutual: where one owner's box reaches another's, the other's reaches theirs.
pub proof fn law_interest_is_mutual(a: Bounds, b: Bounds)
    ensures
        overlaps(a, b) == overlaps(b, a),
{
}

/// The claimant of a point may claim it, and no other domain that may goes before it.
pub proof fn law_claim_is_the_best(domains: Seq<Domain>, x: int, y: int, reach: int)
    ensures
        match claimant(domains, x, y, reach) {
            Some(b) => {
                &&& domains.contains(b)
                &&& may_claim(b, x, y, reach)
                &&& forall|i: int|
                    0 <= i < domains.len() && may_claim(#[trigger] domains[i], x, y, reach)
                        ==> !claims_before(domains[i], b, x, y)
            },
            None => forall|i: int|
                0 <= i < domains.len() ==> !may_claim(#[trigger] domains[i], x, y, reach),
        },
    decreases domains.len(),
{
    if domains.len() > 0 {
        let rest = domains.drop_last();
        let d = domains.last();
        law_claim_is_the_best(rest, x, y, reach);
        assert(domains[domains.len() - 1] == d);
        assert forall|i: int| 0 <= i < rest.len() implies #[trigger] rest[i] == domains[i] by {}
        lemma_text_order(d.owner@, d.owner@, d.owner@);
        if let Some(b) = claimant(rest, x, y, reach) {
            let k = choose|k: int| 0 <= k < rest.len() && rest[k] == b;
            assert(domains[k] == b);
            if may_claim(d, x, y, reach) && claims_before(d, b, x, y) {
                assert forall|i: int|
                    0 <= i < domains.len() && may_claim(
                        #[trigger] domains[i],
                        x,
                        y,
                        reach,
                    ) implies !claims_before(domains[i], d, x, y) by {
                    if i < rest.len() {
                        assert(may_claim(rest[i], x, y, reach));
                        lemma_text_order(domains[i].owner@, d.owner@, b.owner@);
                        lemma_text_order(d.owner@, b.owner@, domains[i].owner@);
                        lemma_text_order(b.owner@, d.owner@, domains[i].owner@);
                    }
                }
            } else {
                assert forall|i: int|
                    0 <= i < domains.len() && may_claim(
                        #[trigger] domains[i],
                        x,
                        y,
                        reach,
                    ) implies !claims_before(domains[i], b, x, y) by {
                    if i < rest.len() {
                        assert(may_claim(rest[i], x, y, reach));
                    }
                }
            }
        } else {
            assert forall|i: int|
                0 <= i < domains.len() && may_claim(
                    #[trigger] domains[i],
                    x,
                    y,
                    reach,
                ) implies i == domains.len() - 1 by {
                if i < rest.len() {
                    assert(!may_claim(rest[i], x, y, reach));
                }
            }
        }
    }
}

/// What an owner holds changes hands only where they are gone or out of reach, or where the new owner's
/// anchor is nearer by more than the margin.
pub proof fn law_claims_do_not_flap(
    domains: Seq<Domain>,
    x: int,
    y: int,
    reach: int,
    prev: Seq<char>,
    hysteresis: int,
)
    requires
        claimant(domains, x, y, reach) is Some,
    ensures
        ({
            let now = sticky_owner(domains, x, y, reach, prev, hysteresis)->0;
            now == prev || named(domains, prev) is None || distance4(
                named(domains, prev)->0,
                x,
                y,
            ) > 4 * (reach * reach) || distance4(named(domains, prev)->0, x, y) - distance4(
                named(domains, now)->0,
                x,
                y,
            ) > 4 * hysteresis
        }),
{
}

/// The entities that somebody owns.
pub open spec fn owned_by_somebody<E: Owned>() -> spec_fn(E) -> bool {
    |e: E| e.owner_of() != UNOWNED@
}

/// The entities that somebody owns, as far as bubbles go.
pub open spec fn entity_spots<E: Owned>(entities: Seq<E>) -> Seq<Spot> {
    entities.filter(owned_by_somebody()).map_values(|e: E| spot_of(e))
}

/// One domain for each owner who has an entity, by ascending owner.
pub open spec fn covers_owners(domains: Seq<Domain>, spots: Seq<Spot>) -> bool {
    &&& owners_ascend(domains)
    &&& forall|o: Seq<char>|
        #![trigger tally_of(spots, o)]
        #![trigger has_domain(domains, o)]
        has_domain(domains, o) <==> tally_of(spots, o) is Some
}

proof fn lemma_ascend_in_order(domains: Seq<Domain>)
    requires
        owners_ascend(domains),
    ensures
        in_order(domains),
        stably_sorted(domains) == domains,
{
    assert forall|i: int, j: int|
        #![trigger domains[i], domains[j]]
        0 <= i < j < domains.len() implies !domains[j].before(&domains[i]) by {
        lemma_text_order(domains[i].owner@, domains[j].owner@, domains[i].owner@);
    }
    crate::sort::lemma_sorted_already(domains);
}

proof fn lemma_table_covers(
    table: SortedMap<String, Tally>,
    domains: Seq<Domain>,
    spots: Seq<Spot>,
)
    requires
        table.wf(),
        tabled(table@, spots),
        domains.len() == table.key_order().len(),
        forall|i: int|
            0 <= i < domains.len() ==> (#[trigger] domains[i]).owner@ == table.key_order()[i]@,
    ensures
        covers_owners(domains, spots),
{
    let keys = table.key_order();
    table.lemma_orders();
    assert forall|i: int, j: int| 0 <= i < j < domains.len() implies text_below(
        (#[trigger] domains[i]).owner@,
        (#[trigger] domains[j]).owner@,
    ) by {
        crate::order::lemma_ascending_at(keys, i, j);
    }
    assert forall|o: Seq<char>|
        #![trigger tally_of(spots, o)]
        #![trigger has_domain(domains, o)]
        has_domain(domains, o) <==> tally_of(spots, o) is Some by {
        assert(tally_of(spots, o) is Some <==> table@.contains_key(o));
        if table@.contains_key(o) {
            assert(views(keys).contains(o));
            let i = choose|i: int| 0 <= i < views(keys).len() && views(keys)[i] == o;
            assert(keys[i]@ == o);
            assert(domains[i].owner@ == o);
        }
        if has_domain(domains, o) {
            let i = choose|i: int| 0 <= i < domains.len() && (#[trigger] domains[i]).owner@ == o;
            assert(views(keys)[i] == o);
            assert(views(keys).contains(o));
        }
    }
}

impl DomainField {
    /// The field of some entities: one domain for each owner, anchored where `anchor_of` says. What
    /// nobody owns has no domain of its own.
    pub fn from_entities<E: Owned, F: Fn(&str) -> (World, World)>(
        entities: &Vec<E>,
        view_radius: World,
        anchor_of: F,
    ) -> (f: Self)
        requires
            in_world(view_radius as int),
            entities@.len() < u32::MAX,
            forall|i: int| 0 <= i < entities@.len() ==> fits(#[trigger] entities@[i]),
            forall|o: &str| #[trigger] call_requires(anchor_of, (o,)),
            forall|o: &str, p: (World, World)| #[trigger]
                call_ensures(anchor_of, (o,), p) ==> in_world(p.0 as int) && in_world(p.1 as int),
        ensures
            f.wf(),
            covers_owners(f.domains@, entity_spots(entities@)),
            forall|i: int|
                0 <= i < f.domains@.len() ==> {
                    let d = #[trigger] f.domains@[i];
                    &&& is_domain(
                        d,
                        d.owner@,
                        d.anchor,
                        (false, false),
                        tally_of(entity_spots(entities@), d.owner@),
                        view_radius,
                    )
                    &&& exists|o: &str| o@ == d.owner@ && call_ensures(anchor_of, (o,), d.anchor)
                },
    {
        let mut table: SortedMap<String, Tally> = SortedMap::new();
        let ghost p = owned_by_somebody::<E>();
        let ghost g = |e: E| spot_of(e);
        let mut i: usize = 0;
        proof {
            reveal(Seq::filter);
            assert(entities@.subrange(0, 0) =~= Seq::<E>::empty());
            assert(entity_spots(entities@.subrange(0, 0)) =~= Seq::<Spot>::empty());
        }
        while i < entities.len()
            invariant
                i <= entities@.len() < u32::MAX,
                p == owned_by_somebody::<E>(),
                g == (|e: E| spot_of(e)),
                forall|j: int| 0 <= j < entities@.len() ==> fits(#[trigger] entities@[j]),
                table.wf(),
                tabled(table@, entity_spots(entities@.subrange(0, i as int))),
                entity_spots(entities@.subrange(0, i as int)).len() <= i,
                forall|j: int|
                    0 <= j < entity_spots(entities@.subrange(0, i as int)).len() ==> box_in_world(
                        (#[trigger] entity_spots(entities@.subrange(0, i as int))[j]).bounds,
                    ),
            decreases entities@.len() - i,
        {
            let e = &entities[i];
            let ghost seen = entities@.subrange(0, i as int);
            let ghost spots = entity_spots(seen);
            assert(fits(entities@[i as int]));
            proof {
                assert(entities@.subrange(0, i + 1) =~= seen.push(*e));
                lemma_filter_push(seen, *e, p);
            }
            if !same_text(e.owner(), UNOWNED) {
                let (x, y) = e.pos();
                let b = Bounds::around(x, y, e.radius());
                count_in(&mut table, e.owner().to_string(), b, None, Ghost(spots));
                proof {
                    let next = spots.push(spot_of(*e));
                    assert(p(*e));
                    assert(entity_spots(seen.push(*e)) =~= next);
                    assert(spot_of(*e) == (Spot {
                        owner: e.owner_of(),
                        bounds: b,
                        anchor: None,
                    }));
                }
            }
            i = i + 1;
        }
        proof {
            assert(entities@.subrange(0, i as int) =~= entities@);
            table.lemma_orders();
        }
        let ghost spots = entity_spots(entities@);
        let keys = table.keys();
        let values = table.values();
        let mut domains: Vec<Domain> = Vec::new();
        let mut k: usize = 0;
        while k < keys.len()
            invariant
                k <= keys@.len() == values@.len(),
                table.wf(),
                keys@ == table.key_order(),
                values@ == table.value_order(),
                tabled(table@, spots),
                spots.len() < u32::MAX,
                in_world(view_radius as int),
                forall|j: int|
                    #![trigger keys@[j]]
                    0 <= j < keys@.len() ==> table@.contains_pair(keys@[j]@, values@[j]),
                forall|j: int| 0 <= j < spots.len() ==> box_in_world((#[trigger] spots[j]).bounds),
                forall|o: &str| #[trigger] call_requires(anchor_of, (o,)),
                forall|o: &str, p: (World, World)| #[trigger]
                    call_ensures(anchor_of, (o,), p) ==> in_world(p.0 as int) && in_world(
                        p.1 as int,
                    ),
                domains@.len() == k,
                forall|j: int|
                    0 <= j < k ==> {
                        let d = #[trigger] domains@[j];
                        &&& d.owner@ == keys@[j]@
                        &&& in_world(d.anchor.0 as int)
                        &&& in_world(d.anchor.1 as int)
                        &&& is_domain(
                            d,
                            d.owner@,
                            d.anchor,
                            (false, false),
                            tally_of(spots, d.owner@),
                            view_radius,
                        )
                        &&& exists|o: &str|
                            o@ == d.owner@ && call_ensures(anchor_of, (o,), d.anchor)
                    },
            decreases keys@.len() - k,
        {
            let owner: String = keys[k].clone();
            let anchor: (World, World) = anchor_of(owner.as_str());
            let half: (bool, bool) = (false, false);
            let t: Tally = values[k];
            proof {
                assert(table@.contains_pair(keys@[k as int]@, values@[k as int]));
                assert(tally_of(spots, owner@) == Some(t));
                lemma_tally_in_world(spots, owner@);
            }
            domains.push(domain_from(owner, anchor, half, Some(t), view_radius));
            k = k + 1;
        }
        proof {
            lemma_table_covers(table, domains@, spots);
            lemma_ascend_in_order(domains@);
        }
        DomainField::new(domains)
    }

    /// The field of a sector's ships: each pilot's own ship and their fleet make one domain, anchored
    /// on the pilot's ship, in world coordinates, so that the fields of neighbouring sectors fit
    /// together.
    pub fn from_sim(sim: &Sim, view_radius: World) -> (f: Self)
        requires
            sim.wf(),
            in_world(view_radius as int),
            sim.ships.key_order().len() < u32::MAX,
        ensures
            f.wf(),
            ({
                let spots = ship_spots(
                    sim.sector,
                    sim.ships.key_order(),
                    sim.ships.value_order(),
                );
                &&& covers_owners(f.domains@, spots)
                &&& forall|i: int|
                    0 <= i < f.domains@.len() ==> {
                        let d = #[trigger] f.domains@[i];
                        is_domain(
                            d,
                            d.owner@,
                            anchor_of_tally(tally_of(spots, d.owner@)->0),
                            half_of_tally(tally_of(spots, d.owner@)->0),
                            tally_of(spots, d.owner@),
                            view_radius,
                        )
                    }
            }),
    {
        let ids = sim.ships.keys();
        let ships = sim.ships.values();
        let ghost spots = ship_spots(sim.sector, ids@, ships@);
        let mut table: SortedMap<String, Tally> = SortedMap::new();
        let mut i: usize = 0;
        proof {
            sim.ships.lemma_orders();
            assert(spots.subrange(0, 0) =~= Seq::<Spot>::empty());
            assert forall|j: int| 0 <= j < spots.len() implies box_in_world(
                (#[trigger] spots[j]).bounds,
            ) && (spots[j].anchor matches Some(a) ==> in_world(a.0 as int) && in_world(
                a.1 as int,
            )) by {
                lemma_ship_spot(sim.sector, ids@[j]@, ships@[j]);
            }
        }
        while i < ids.len()
            invariant
                i <= ids@.len() == ships@.len(),
                ids@.len() < u32::MAX,
                spots == ship_spots(sim.sector, ids@, ships@),
                table.wf(),
                tabled(table@, spots.subrange(0, i as int)),
                forall|j: int| 0 <= j < spots.len() ==> box_in_world((#[trigger] spots[j]).bounds),
            decreases ids@.len() - i,
        {
            let id = &ids[i];
            let ship = &ships[i];
            let owner: String = match &ship.owner {
                Some(o) => o.clone(),
                None => id.clone(),
            };
            let (wx, wy) = world_pos(sim.sector, ship.body.x, ship.body.y);
            let b = Bounds::around(wx, wy, 14);
            let anchor: Option<(World, World)> = if same_text(id.as_str(), owner.as_str()) {
                Some((wx, wy))
            } else {
                None
            };
            proof {
                let seen = spots.subrange(0, i as int);
                let s = Spot { owner: owner@, bounds: b, anchor };
                assert(spots[i as int] == s);
                assert(spots.subrange(0, i + 1) =~= seen.push(s));
            }
            count_in(&mut table, owner, b, anchor, Ghost(spots.subrange(0, i as int)));
            i = i + 1;
        }
        proof {
            assert(spots.subrange(0, i as int) =~= spots);
            table.lemma_orders();
        }
        let keys = table.keys();
        let values = table.values();
        let mut domains: Vec<Domain> = Vec::new();
        let mut k: usize = 0;
        while k < keys.len()
            invariant
                k <= keys@.len() == values@.len(),
                table.wf(),
                keys@ == table.key_order(),
                values@ == table.value_order(),
                tabled(table@, spots),
                spots.len() < u32::MAX,
                in_world(view_radius as int),
                forall|j: int|
                    #![trigger keys@[j]]
                    0 <= j < keys@.len() ==> table@.contains_pair(keys@[j]@, values@[j]),
                forall|j: int|
                    0 <= j < spots.len() ==> box_in_world((#[trigger] spots[j]).bounds) && (
                    spots[j].anchor matches Some(a) ==> in_world(a.0 as int) && in_world(
                        a.1 as int,
                    )),
                domains@.len() == k,
                forall|j: int|
                    0 <= j < k ==> {
                        let d = #[trigger] domains@[j];
                        &&& d.owner@ == keys@[j]@
                        &&& in_world(d.anchor.0 as int)
                        &&& in_world(d.anchor.1 as int)
                        &&& is_domain(
                            d,
                            d.owner@,
                            anchor_of_tally(tally_of(spots, d.owner@)->0),
                            half_of_tally(tally_of(spots, d.owner@)->0),
                            tally_of(spots, d.owner@),
                            view_radius,
                        )
                    },
            decreases keys@.len() - k,
        {
            let owner: String = keys[k].clone();
            let t: Tally = values[k];
            proof {
                assert(table@.contains_pair(keys@[k as int]@, values@[k as int]));
                assert(tally_of(spots, owner@) == Some(t));
                lemma_tally_in_world(spots, owner@);
                lemma_tally_anchor(spots, owner@);
            }
            let (anchor, half): ((World, World), (bool, bool)) = match t.anchor {
                Some(a) => (a, (false, false)),
                None => (t.bounds.center(), t.bounds.centred_between()),
            };
            domains.push(domain_from(owner, anchor, half, Some(t), view_radius));
            k = k + 1;
        }
        proof {
            lemma_table_covers(table, domains@, spots);
            lemma_ascend_in_order(domains@);
        }
        DomainField::new(domains)
    }
}

proof fn lemma_ship_spot(sector: SectorId, id: Seq<char>, ship: Ship)
    ensures
        box_in_world(ship_spot(sector, id, ship).bounds),
        ship_spot(sector, id, ship).anchor matches Some(a) ==> in_world(a.0 as int) && in_world(
            a.1 as int,
        ),
{
}

proof fn lemma_tally_anchor(spots: Seq<Spot>, owner: Seq<char>)
    requires
        forall|i: int|
            0 <= i < spots.len() ==> ((#[trigger] spots[i]).anchor matches Some(a) ==> in_world(
                a.0 as int,
            ) && in_world(a.1 as int)),
    ensures
        tally_of(spots, owner) matches Some(t) ==> (t.anchor matches Some(a) ==> in_world(
            a.0 as int,
        ) && in_world(a.1 as int)),
    decreases spots.len(),
{
    if spots.len() > 0 {
        let rest = spots.drop_last();
        assert forall|i: int| 0 <= i < rest.len() implies ((#[trigger] rest[i]).anchor matches Some(
            a,
        ) ==> in_world(a.0 as int) && in_world(a.1 as int)) by {
            assert(rest[i] == spots[i]);
        }
        lemma_tally_anchor(rest, owner);
        assert(spots[spots.len() - 1] == spots.last());
    }
}

/// A pilot whose ship is in the sector has a domain, anchored on that ship and holding it.
pub proof fn law_pilot_has_a_domain(
    sector: SectorId,
    ids: Seq<String>,
    ships: Seq<Ship>,
    at: int,
)
    requires
        0 <= at < ids.len(),
        ids.len() == ships.len(),
        ships[at].owner is None,
        forall|i: int, j: int|
            0 <= i < j < ids.len() ==> (#[trigger] ids[i])@ != (#[trigger] ids[j])@,
    ensures
        ({
            let p = world_of(sector, ships[at].body.x as int, ships[at].body.y as int);
            let t = tally_of(ship_spots(sector, ids, ships), ids[at]@);
            &&& t is Some
            &&& anchor_of_tally(t->0) == (p.0 as World, p.1 as World)
            &&& half_of_tally(t->0) == (false, false)
        }),
{
    let spots = ship_spots(sector, ids, ships);
    lemma_anchored_by(sector, ids, ships, at, ids.len());
    assert(spots.subrange(0, ids.len() as int) =~= spots);
}

proof fn lemma_anchored_by(
    sector: SectorId,
    ids: Seq<String>,
    ships: Seq<Ship>,
    at: int,
    n: nat,
)
    requires
        0 <= at < n <= ids.len(),
        ids.len() == ships.len(),
        ships[at].owner is None,
        forall|i: int, j: int|
            0 <= i < j < ids.len() ==> (#[trigger] ids[i])@ != (#[trigger] ids[j])@,
    ensures
        ({
            let spots = ship_spots(sector, ids, ships).subrange(0, n as int);
            let t = tally_of(spots, ids[at]@);
            t is Some && t->0.anchor == ship_spot(sector, ids[at]@, ships[at]).anchor && t->0.anchor is Some
        }),
    decreases n,
{
    let all = ship_spots(sector, ids, ships);
    let spots = all.subrange(0, n as int);
    assert(spots.drop_last() =~= all.subrange(0, n - 1));
    assert(spots.last() == ship_spot(sector, ids[n - 1]@, ships[n - 1]));
    if at < n - 1 {
        lemma_anchored_by(sector, ids, ships, at, (n - 1) as nat);
        assert(ids[at]@ != ids[n - 1]@);
    }
}

/// Who claims a point, in coordinates. Where `x` and `y` of an anchor are counted in half units, the claimant's
/// anchor has the least `dx * dx + dy * dy` of all whose footprint holds the point, or, where no footprint
/// does, of all; then nobody further than the reach in that measure claims it. Equally near ones go by name.
pub proof fn law_nearest_anchor_claims(domains: Seq<Domain>, x: int, y: int, reach: int, k: int)
    requires
        0 <= k < domains.len(),
    ensures
        ({
            let e = domains[k];
            let ex = 2 * e.anchor.0 + (if e.half.0 { 1int } else { 0int }) - 2 * x;
            let ey = 2 * e.anchor.1 + (if e.half.1 { 1int } else { 0int }) - 2 * y;
            let e_holds = e.bounds.min_x <= x && x <= e.bounds.max_x && e.bounds.min_y <= y && y
                <= e.bounds.max_y;
            match claimant(domains, x, y, reach) {
                None => !e_holds && ex * ex + ey * ey > (2 * reach) * (2 * reach),
                Some(d) => {
                    let dx = 2 * d.anchor.0 + (if d.half.0 { 1int } else { 0int }) - 2 * x;
                    let dy = 2 * d.anchor.1 + (if d.half.1 { 1int } else { 0int }) - 2 * y;
                    let d_holds = d.bounds.min_x <= x && x <= d.bounds.max_x && d.bounds.min_y <= y
                        && y <= d.bounds.max_y;
                    &&& domains.contains(d)
                    &&& d_holds || dx * dx + dy * dy <= (2 * reach) * (2 * reach)
                    &&& e_holds ==> d_holds
                    &&& e_holds == d_holds ==> dx * dx + dy * dy <= ex * ex + ey * ey
                    &&& e_holds == d_holds && dx * dx + dy * dy == ex * ex + ey * ey
                        ==> !text_below(e.owner@, d.owner@)
                },
            }
        }),
{
    law_claim_is_the_best(domains, x, y, reach);
    let e = domains[k];
    lemma_measured(e, x, y);
    assert((2 * reach) * (2 * reach) == 4 * (reach * reach)) by (nonlinear_arith);
    if let Some(d) = claimant(domains, x, y, reach) {
        lemma_measured(d, x, y);
        assert(!claims_before(e, d, x, y) || !may_claim(e, x, y, reach));
    } else {
        assert(!may_claim(e, x, y, reach));
    }
}

proof fn lemma_measured(e: Domain, x: int, y: int)
    ensures
        ({
            let ex = 2 * e.anchor.0 + (if e.half.0 { 1int } else { 0int }) - 2 * x;
            let ey = 2 * e.anchor.1 + (if e.half.1 { 1int } else { 0int }) - 2 * y;
            distance4(e, x, y) == ex * ex + ey * ey
        }),
{
    let ex = 2 * e.anchor.0 + (if e.half.0 { 1int } else { 0int }) - 2 * x;
    let ey = 2 * e.anchor.1 + (if e.half.1 { 1int } else { 0int }) - 2 * y;
    assert(ex == twice_off(e.anchor.0, e.half.0, x));
    assert(ey == twice_off(e.anchor.1, e.half.1, y));
}

/// What an owner holds stays theirs while their anchor is within reach and the claimant is not nearer by more
/// than the margin of squared distance; beyond either it goes to the claimant. Distances are counted in half
/// units, along both axes.
pub proof fn law_sticky_claims(
    domains: Seq<Domain>,
    x: int,
    y: int,
    reach: int,
    margin: int,
    p: Domain,
    d: Domain,
)
    requires
        claimant(domains, x, y, reach) == Some(d),
        named(domains, d.owner@) == Some(d),
        named(domains, p.owner@) == Some(p),
    ensures
        ({
            let px = 2 * p.anchor.0 + (if p.half.0 { 1int } else { 0int }) - 2 * x;
            let py = 2 * p.anchor.1 + (if p.half.1 { 1int } else { 0int }) - 2 * y;
            let dx = 2 * d.anchor.0 + (if d.half.0 { 1int } else { 0int }) - 2 * x;
            let dy = 2 * d.anchor.1 + (if d.half.1 { 1int } else { 0int }) - 2 * y;
            let kept = px * px + py * py <= (2 * reach) * (2 * reach) && px * px + py * py <= dx
                * dx + dy * dy + 4 * margin;
            sticky_owner(domains, x, y, reach, p.owner@, margin) == Some(
                if kept {
                    p.owner@
                } else {
                    d.owner@
                },
            )
        }),
        named(domains, Seq::empty()) is None ==> sticky_owner(
            domains,
            x,
            y,
            reach,
            Seq::empty(),
            margin,
        ) == Some(d.owner@),
{
    lemma_measured(p, x, y);
    lemma_measured(d, x, y);
    assert((2 * reach) * (2 * reach) == 4 * (reach * reach)) by (nonlinear_arith);
}

/// The box around two boxes holds both, and every box that holds both holds it.
pub proof fn law_union_is_the_smallest(a: Bounds, b: Bounds, c: Bounds)
    ensures
        forall|x: int, y: int|
            holds_point(a, x, y) || holds_point(b, x, y) ==> #[trigger] holds_point(
                joined(a, b),
                x,
                y,
            ),
        c.min_x <= a.min_x && c.min_x <= b.min_x && c.min_y <= a.min_y && c.min_y <= b.min_y
            && c.max_x >= a.max_x && c.max_x >= b.max_x && c.max_y >= a.max_y && c.max_y >= b.max_y
            ==> c.min_x <= joined(a, b).min_x && c.min_y <= joined(a, b).min_y && c.max_x >= joined(
            a,
            b,
        ).max_x && c.max_y >= joined(a, b).max_y,
{
}

/// Two boxes overlap exactly where they have a point in common; that on an edge counts.
pub proof fn law_overlap_is_a_common_point(a: Bounds, b: Bounds)
    requires
        a.min_x <= a.max_x,
        a.min_y <= a.max_y,
        b.min_x <= b.max_x,
        b.min_y <= b.max_y,
    ensures
        overlaps(a, b) <==> exists|x: int, y: int| #[trigger]
            holds_point(a, x, y) && a.min_x <= x <= a.max_x && a.min_y <= y <= a.max_y && b.min_x
                <= x <= b.max_x && b.min_y <= y <= b.max_y,
{
    if overlaps(a, b) {
        let x = greatest(a.min_x, b.min_x) as int;
        let y = greatest(a.min_y, b.min_y) as int;
        assert(holds_point(a, x, y));
    }
}

/// An owner sees as far as their view beyond their footprint, in every direction: a point is in the interest of
/// a domain exactly where it can be brought into the footprint by at most that much along each axis.
pub proof fn law_view_widens_the_footprint(
    d: Domain,
    owner: Seq<char>,
    anchor: (World, World),
    half: (bool, bool),
    tally: Option<Tally>,
    view: World,
    x: int,
    y: int,
)
    requires
        is_domain(d, owner, anchor, half, tally, view),
        can_grow(d.bounds, view as int),
        0 <= view,
        d.bounds.min_x <= d.bounds.max_x,
        d.bounds.min_y <= d.bounds.max_y,
    ensures
        holds_point(d.interest, x, y) <==> exists|i: int, j: int|
            -view <= i <= view && -view <= j <= view && #[trigger] holds_point(d.bounds, x + i, y + j),
{
    if holds_point(d.interest, x, y) {
        let i = if x < d.bounds.min_x {
            d.bounds.min_x - x
        } else if x > d.bounds.max_x {
            d.bounds.max_x - x
        } else {
            0
        };
        let j = if y < d.bounds.min_y {
            d.bounds.min_y - y
        } else if y > d.bounds.max_y {
            d.bounds.max_y - y
        } else {
            0
        };
        assert(holds_point(d.bounds, x + i, y + j));
    }
}

/// A footprint is no larger than it must be: each of its edges is that of one of the owner's entities, and it
/// counts each of them once.
pub proof fn law_footprint_is_tight(spots: Seq<Spot>, owner: Seq<char>)
    requires
        spots.len() <= u32::MAX,
    ensures
        tally_of(spots, owner) is Some <==> exists|i: int|
            0 <= i < spots.len() && (#[trigger] spots[i]).owner == owner,
        spots.filter(|s: Spot| s.owner == owner).len() == (match tally_of(spots, owner) {
            Some(t) => t.n as nat,
            None => 0,
        }),
        tally_of(spots, owner) matches Some(t) ==> {
            &&& exists|i: int|
                0 <= i < spots.len() && (#[trigger] spots[i]).owner == owner && spots[i].bounds.min_x
                    == t.bounds.min_x
            &&& exists|i: int|
                0 <= i < spots.len() && (#[trigger] spots[i]).owner == owner && spots[i].bounds.min_y
                    == t.bounds.min_y
            &&& exists|i: int|
                0 <= i < spots.len() && (#[trigger] spots[i]).owner == owner && spots[i].bounds.max_x
                    == t.bounds.max_x
            &&& exists|i: int|
                0 <= i < spots.len() && (#[trigger] spots[i]).owner == owner && spots[i].bounds.max_y
                    == t.bounds.max_y
        },
    decreases spots.len(),
{
    reveal(Seq::filter);
    if spots.len() > 0 {
        let rest = spots.drop_last();
        let last = spots.len() - 1;
        law_footprint_is_tight(rest, owner);
        spots.lemma_filter_len(|s: Spot| s.owner == owner);
        rest.lemma_filter_len(|s: Spot| s.owner == owner);
        assert forall|i: int| 0 <= i < rest.len() implies #[trigger] rest[i] == spots[i] by {}
        if let Some(t) = tally_of(rest, owner) {
            let a = choose|i: int|
                0 <= i < rest.len() && (#[trigger] rest[i]).owner == owner && rest[i].bounds.min_x
                    == t.bounds.min_x;
            let b = choose|i: int|
                0 <= i < rest.len() && (#[trigger] rest[i]).owner == owner && rest[i].bounds.min_y
                    == t.bounds.min_y;
            let c = choose|i: int|
                0 <= i < rest.len() && (#[trigger] rest[i]).owner == owner && rest[i].bounds.max_x
                    == t.bounds.max_x;
            let d = choose|i: int|
                0 <= i < rest.len() && (#[trigger] rest[i]).owner == owner && rest[i].bounds.max_y
                    == t.bounds.max_y;
            assert(spots[a] == rest[a] && spots[b] == rest[b] && spots[c] == rest[c] && spots[d]
                == rest[d]);
        }
        assert(spots[last] == spots.last());
        if tally_of(spots, owner) is Some && spots.last().owner != owner {
            let i = choose|i: int| 0 <= i < rest.len() && (#[trigger] rest[i]).owner == owner;
            assert(spots[i].owner == owner);
        }
        if exists|i: int| 0 <= i < spots.len() && (#[trigger] spots[i]).owner == owner {
            let i = choose|i: int| 0 <= i < spots.len() && (#[trigger] spots[i]).owner == owner;
            if i < last {
                assert(rest[i].owner == owner);
            }
        }
    }
}

/// A bubble that no ship of its pilot anchors is anchored in the middle of its footprint: as far from the west
/// edge as from the east one, and from the north as from the south.
pub proof fn law_unpiloted_bubbles_are_centred(t: Tally)
    requires
        t.anchor is None,
    ensures
        ({
            let a = anchor_of_tally(t);
            let h = half_of_tally(t);
            let x2 = 2 * a.0 + (if h.0 { 1int } else { 0int });
            let y2 = 2 * a.1 + (if h.1 { 1int } else { 0int });
            &&& x2 - 2 * t.bounds.min_x == 2 * t.bounds.max_x - x2
            &&& y2 - 2 * t.bounds.min_y == 2 * t.bounds.max_y - y2
        }),
{
}

/// A place in a sector is as far from the corner of the world as the sectors before it are wide, and the place
/// in the sector on top; and the sector of a place of the world is the one it lies in.
pub proof fn law_sectors_tile_the_world(sector: SectorId, lx: int, ly: int)
    requires
        0 <= lx < 9000,
        0 <= ly < 9000,
    ensures
        sector_axis_of(world_of(sector, lx, ly).0) == sector.sx,
        sector_axis_of(world_of(sector, lx, ly).1) == sector.sy,
        world_of(sector, lx, ly).0 - world_of(sector, 0, 0).0 == lx,
        world_of(sector, lx, ly).1 - world_of(sector, 0, 0).1 == ly,
        world_of(SectorId { sx: 0, sy: 0 }, lx, ly) == (lx, ly),
{
}

/// A box reaches into no other sectors than those listed: each of them shares a point with it, and none is
/// listed twice.
pub proof fn law_no_sector_is_listed_in_vain(b: Bounds, s: SectorId)
    requires
        sectors_of(b).contains(s),
        b.min_x <= b.max_x,
        b.min_y <= b.max_y,
        -9000 * 0x8000_0000 <= b.min_x && b.max_x < 9000 * 0x8000_0000,
        -9000 * 0x8000_0000 <= b.min_y && b.max_y < 9000 * 0x8000_0000,
    ensures
        b.min_x < 9000 * (s.sx + 1) && b.max_x >= 9000 * s.sx,
        b.min_y < 9000 * (s.sy + 1) && b.max_y >= 9000 * s.sy,
{
    let x0 = sector_axis_of(b.min_x as int);
    let x1 = sector_axis_of(b.max_x as int);
    let y0 = sector_axis_of(b.min_y as int);
    let y1 = sector_axis_of(b.max_y as int);
    let w = x1 - x0 + 1;
    let h = y1 - y0 + 1;
    let all = sectors_of(b);
    let k = choose|k: int| 0 <= k < all.len() && all[k] == s;
    vstd::arithmetic::div_mod::lemma_fundamental_div_mod(k, w);
    vstd::arithmetic::div_mod::lemma_mod_bound(k, w);
    assert(0 <= k / w < h) by (nonlinear_arith)
        requires
            0 <= k < w * h,
            w > 0,
    ;
}

/// The entities of a field are those of its domains together, and a domain is found by its owner's name, the first of that name.
pub proof fn law_fields_add_up(domains: Seq<Domain>, d: Domain, owner: Seq<char>)
    ensures
        entity_sum(Seq::empty()) == 0,
        entity_sum(domains.push(d)) == entity_sum(domains) + d.entities,
        named(Seq::empty(), owner) is None,
        named(domains, owner) is Some ==> named(domains.push(d), owner) == named(domains, owner),
        named(domains, owner) is None ==> named(domains.push(d), owner) == (if d.owner@ == owner {
            Some(d)
        } else {
            None
        }),
{
    assert(domains.push(d).drop_last() =~= domains);
}

/// A ship is at its place in the world and 14 units around; it belongs to its owner, or to its pilot where it has none, and only a pilot's own ship
/// anchors a bubble.
pub proof fn law_ships_in_the_world(sector: SectorId, id: Seq<char>, ship: Ship)
    ensures
        ({
            let s = ship_spot(sector, id, ship);
            let (x, y) = (9000 * sector.sx + ship.body.x, 9000 * sector.sy + ship.body.y);
            &&& s.bounds.min_x == x - 14 && s.bounds.max_x == x + 14
            &&& s.bounds.min_y == y - 14 && s.bounds.max_y == y + 14
            &&& ship.owner is None ==> s.owner == id && s.anchor == Some((x as World, y as World))
            &&& ship.owner matches Some(o) ==> s.owner == o@
            &&& s.owner != id ==> s.anchor is None
        }),
{
}

/// Among the entities that count only those that somebody owns, each with its own box.
pub proof fn law_unowned_entities_do_not_count<E: Owned>(entities: Seq<E>, e: E)
    ensures
        e.owner_of() == UNOWNED@ ==> entity_spots(entities.push(e)) == entity_spots(entities),
        e.owner_of() != UNOWNED@ ==> {
            let after = entity_spots(entities.push(e));
            &&& after.len() == entity_spots(entities).len() + 1
            &&& after.drop_last() == entity_spots(entities)
            &&& after.last().owner == e.owner_of()
            &&& after.last().bounds == box_of(e)
        },
{
    let p = owned_by_somebody::<E>();
    let f = |e: E| spot_of(e);
    lemma_filter_push(entities, e, p);
    if p(e) {
        let after = entity_spots(entities.push(e));
        assert(after =~= entity_spots(entities).push(spot_of(e)));
        assert(after.drop_last() =~= entity_spots(entities));
    }
}

} // verus!
