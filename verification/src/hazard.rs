//! The hazards of a sector: gravity wells and nebulae, grown from the sector's address alone.
//!
//! Hosts, replicas and clients compute the same field without a word about it. Lengths are in hundredths
//! of a world unit, masses in tenths, drag in thousandths.
use vstd::prelude::*;
use vstd::string::*;
use vstd::utf8::*;

use crate::hash::{fnv1a, fnv32_from, FNV32_BASIS};
use crate::shard::{sector_token, SectorId};
use crate::sim::SECTOR_SIZE;
use crate::text::{dec, push_dec};

verus! {

/// The drag of every nebula.
pub const NEBULA_DRAG: u32 = 35;

/// What a gravity well is.
#[derive(Debug, Clone, Copy, PartialEq, Eq, Structural)]
pub enum WellKind {
    Planet,
    Star,
    BlackHole,
}

impl WellKind {
    /// Is a ship lost that falls into the core?
    pub fn core_is_lethal(self) -> (r: bool)
        ensures
            r == (self is BlackHole),
    {
        match self {
            WellKind::BlackHole => true,
            WellKind::Planet => false,
            WellKind::Star => false,
        }
    }

    /// A number for the wire.
    pub fn code(self) -> (c: u8)
        ensures
            c == (match self {
                WellKind::Planet => 0u8,
                WellKind::Star => 1u8,
                WellKind::BlackHole => 2u8,
            }),
    {
        match self {
            WellKind::Planet => 0,
            WellKind::Star => 1,
            WellKind::BlackHole => 2,
        }
    }
}

/// A source of gravity.
#[derive(Debug, Clone, Copy, PartialEq, Eq, Structural)]
pub struct Well {
    pub x: i32,
    pub y: i32,
    /// Beyond this there is no pull.
    pub radius: i32,
    /// The body itself.
    pub core_radius: i32,
    /// The pull at the edge of the core.
    pub mass: u32,
    pub kind: WellKind,
}

/// A cloud that slows ships down and hides them.
#[derive(Debug, Clone, Copy, PartialEq, Eq, Structural)]
pub struct Nebula {
    pub x: i32,
    pub y: i32,
    pub radius: i32,
    pub drag: u32,
}

/// The point lies in the circle; its edge belongs to it.
pub open spec fn in_circle(cx: int, cy: int, r: int, x: int, y: int) -> bool {
    (cx - x) * (cx - x) + (cy - y) * (cy - y) <= r * r
}

fn circle_holds(cx: i32, cy: i32, r: i32, x: i32, y: i32) -> (b: bool)
    ensures
        b == in_circle(cx as int, cy as int, r as int, x as int, y as int),
{
    let dx: i128 = cx as i128 - x as i128;
    let dy: i128 = cy as i128 - y as i128;
    let rr: i128 = r as i128;
    proof {
        lemma_square_bounded(dx as int);
        lemma_square_bounded(dy as int);
        lemma_square_bounded(rr as int);
    }
    dx * dx + dy * dy <= rr * rr
}

proof fn lemma_square_bounded(d: int)
    requires
        -0x1_0000_0000 <= d <= 0x1_0000_0000,
    ensures
        0 <= d * d <= 0x1_0000_0000_0000_0000,
{
    assert(0 <= d * d <= 0x1_0000_0000_0000_0000) by (nonlinear_arith)
        requires
            -0x1_0000_0000 <= d <= 0x1_0000_0000,
    ;
}

pub open spec fn is_lethal(w: Well, x: int, y: int) -> bool {
    w.kind is BlackHole && in_circle(w.x as int, w.y as int, w.core_radius as int, x, y)
}

impl Well {
    /// Is the point inside a core that destroys ships?
    pub fn lethal(&self, x: i32, y: i32) -> (r: bool)
        ensures
            r == is_lethal(*self, x as int, y as int),
    {
        self.kind.core_is_lethal() && circle_holds(self.x, self.y, self.core_radius, x, y)
    }
}

pub open spec fn is_inside(n: Nebula, x: int, y: int) -> bool {
    in_circle(n.x as int, n.y as int, n.radius as int, x, y)
}

impl Nebula {
    pub fn contains(&self, x: i32, y: i32) -> (r: bool)
        ensures
            r == is_inside(*self, x as int, y as int),
    {
        circle_holds(self.x, self.y, self.radius, x, y)
    }
}

/// The hazards of one sector.
#[derive(Debug, PartialEq)]
pub struct Hazards {
    pub wells: Vec<Well>,
    pub nebulae: Vec<Nebula>,
}

/// The number that a feature of a sector is grown from.
pub open spec fn grown_from(sector: SectorId, tag: Seq<char>) -> u32 {
    fnv32_from(FNV32_BASIS, encode_utf8(sector_token(sector) + ":"@ + tag))
}

/// The same, for one of several features.
pub open spec fn grown_from_nth(sector: SectorId, tag: Seq<char>, i: int) -> u32 {
    grown_from(sector, tag + dec(i as nat))
}

/// A coordinate between 18 and 82 hundredths of the sector's side.
pub open spec fn inset(v: u32) -> int {
    162_000 + (v % 1000) * 576
}

pub open spec fn well_count(sector: SectorId) -> int {
    let n = grown_from(sector, "nwell"@) % 10;
    if n <= 1 {
        0
    } else if n <= 6 {
        1
    } else {
        2
    }
}

pub open spec fn nebula_count(sector: SectorId) -> int {
    (grown_from(sector, "nneb"@) % 4) as int
}

pub open spec fn well_kind(v: u32) -> WellKind {
    if v % 12 == 0 {
        WellKind::BlackHole
    } else if v % 12 <= 2 {
        WellKind::Star
    } else {
        WellKind::Planet
    }
}

/// The well of a number of a sector.
pub open spec fn well_at(sector: SectorId, i: int) -> Well {
    let kind = well_kind(grown_from_nth(sector, "wk"@, i));
    let m = grown_from_nth(sector, "wm"@, i) % 5;
    Well {
        x: inset(grown_from_nth(sector, "wx"@, i)) as i32,
        y: inset(grown_from_nth(sector, "wy"@, i)) as i32,
        radius: match kind {
            WellKind::Planet => 52_000,
            WellKind::Star => 76_000,
            WellKind::BlackHole => 90_000,
        },
        core_radius: match kind {
            WellKind::Planet => 7_000,
            WellKind::Star => 9_500,
            WellKind::BlackHole => 4_600,
        },
        mass: (match kind {
            WellKind::Planet => 11 + 2 * m,
            WellKind::Star => 20 + 3 * m,
            WellKind::BlackHole => 36 + 5 * m,
        }) as u32,
        kind,
    }
}

/// The nebula of a number of a sector.
pub open spec fn nebula_at(sector: SectorId, i: int) -> Nebula {
    Nebula {
        x: inset(grown_from_nth(sector, "nx"@, i)) as i32,
        y: inset(grown_from_nth(sector, "ny"@, i)) as i32,
        radius: (28_000 + (grown_from_nth(sector, "nr"@, i) % 320) * 100) as i32,
        drag: NEBULA_DRAG,
    }
}

pub open spec fn is_home(sector: SectorId) -> bool {
    sector.sx == 0 && sector.sy == 0
}

/// The wells of a sector. The home sector has none.
pub open spec fn wells_of(sector: SectorId) -> Seq<Well> {
    if is_home(sector) {
        Seq::empty()
    } else {
        Seq::new(well_count(sector) as nat, |i: int| well_at(sector, i))
    }
}

/// The nebulae of a sector. The home sector has none.
pub open spec fn nebulae_of(sector: SectorId) -> Seq<Nebula> {
    if is_home(sector) {
        Seq::empty()
    } else {
        Seq::new(nebula_count(sector) as nat, |i: int| nebula_at(sector, i))
    }
}

fn salted(salt: &str, tag: &str, Ghost(sector): Ghost<SectorId>) -> (h: u32)
    requires
        salt@ == sector_token(sector),
    ensures
        h == grown_from(sector, tag@),
{
    let mut s: String = salt.to_string();
    s.append(":");
    s.append(tag);
    fnv1a(s.as_str())
}

fn salted_nth(salt: &str, tag: &str, i: u32, Ghost(sector): Ghost<SectorId>) -> (h: u32)
    requires
        salt@ == sector_token(sector),
    ensures
        h == grown_from_nth(sector, tag@, i as int),
{
    let mut t: String = tag.to_string();
    push_dec(&mut t, i as u64);
    salted(salt, t.as_str(), Ghost(sector))
}

fn inset_of(v: u32) -> (r: i32)
    ensures
        r == inset(v),
{
    162_000 + (v % 1000) as i32 * 576
}

impl Hazards {
    /// No hazards at all.
    pub fn empty() -> (h: Self)
        ensures
            h.wells@ == Seq::<Well>::empty(),
            h.nebulae@ == Seq::<Nebula>::empty(),
    {
        Hazards { wells: Vec::new(), nebulae: Vec::new() }
    }

    /// The hazards of a sector, grown from its address. The home sector is calm.
    pub fn for_sector(sector: SectorId) -> (h: Self)
        ensures
            h.wells@ == wells_of(sector),
            h.nebulae@ == nebulae_of(sector),
    {
        if sector.sx == 0 && sector.sy == 0 {
            return Hazards::empty();
        }
        let token: String = sector.token();
        let salt: &str = token.as_str();
        let mut wells: Vec<Well> = Vec::new();
        let draw: u32 = salted(salt, "nwell", Ghost(sector)) % 10;
        let count: u32 = if draw <= 1 {
            0
        } else if draw <= 6 {
            1
        } else {
            2
        };
        let mut i: u32 = 0;
        while i < count
            invariant
                i <= count,
                salt@ == sector_token(sector),
                wells@.len() == i,
                forall|j: int| 0 <= j < i ==> #[trigger] wells@[j] == well_at(sector, j),
            decreases count - i,
        {
            let hx: u32 = salted_nth(salt, "wx", i, Ghost(sector));
            let hy: u32 = salted_nth(salt, "wy", i, Ghost(sector));
            let hk: u32 = salted_nth(salt, "wk", i, Ghost(sector));
            let hm: u32 = salted_nth(salt, "wm", i, Ghost(sector));
            let k: u32 = hk % 12;
            let kind: WellKind = if k == 0 {
                WellKind::BlackHole
            } else if k <= 2 {
                WellKind::Star
            } else {
                WellKind::Planet
            };
            let m: u32 = hm % 5;
            let (radius, core_radius, mass): (i32, i32, u32) = match kind {
                WellKind::Planet => (52_000, 7_000, 11 + 2 * m),
                WellKind::Star => (76_000, 9_500, 20 + 3 * m),
                WellKind::BlackHole => (90_000, 4_600, 36 + 5 * m),
            };
            wells.push(
                Well { x: inset_of(hx), y: inset_of(hy), radius, core_radius, mass, kind },
            );
            i = i + 1;
        }
        assert(wells@ =~= wells_of(sector));
        let mut nebulae: Vec<Nebula> = Vec::new();
        let clouds: u32 = salted(salt, "nneb", Ghost(sector)) % 4;
        let mut k: u32 = 0;
        while k < clouds
            invariant
                k <= clouds,
                salt@ == sector_token(sector),
                nebulae@.len() == k,
                forall|j: int| 0 <= j < k ==> #[trigger] nebulae@[j] == nebula_at(sector, j),
            decreases clouds - k,
        {
            let hx: u32 = salted_nth(salt, "nx", k, Ghost(sector));
            let hy: u32 = salted_nth(salt, "ny", k, Ghost(sector));
            let hr: u32 = salted_nth(salt, "nr", k, Ghost(sector));
            nebulae.push(
                Nebula {
                    x: inset_of(hx),
                    y: inset_of(hy),
                    radius: 28_000 + (hr % 320) as i32 * 100,
                    drag: NEBULA_DRAG,
                },
            );
            k = k + 1;
        }
        assert(nebulae@ =~= nebulae_of(sector));
        Hazards { wells, nebulae }
    }

    pub fn is_empty(&self) -> (r: bool)
        ensures
            r == (self.wells@.len() == 0 && self.nebulae@.len() == 0),
    {
        self.wells.len() == 0 && self.nebulae.len() == 0
    }

    /// The drag at a point: that of the strongest nebula around it, and none in open space.
    pub fn drag_at(&self, x: i32, y: i32) -> (d: u32)
        ensures
            d == strongest(self.nebulae@, x as int, y as int),
    {
        let mut d: u32 = 0;
        let mut i: usize = 0;
        assert(self.nebulae@.subrange(0, 0) =~= Seq::<Nebula>::empty());
        while i < self.nebulae.len()
            invariant
                i <= self.nebulae@.len(),
                d == strongest(self.nebulae@.subrange(0, i as int), x as int, y as int),
            decreases self.nebulae@.len() - i,
        {
            let n: Nebula = self.nebulae[i];
            assert(self.nebulae@.subrange(0, i + 1).drop_last() =~= self.nebulae@.subrange(
                0,
                i as int,
            ));
            if n.contains(x, y) && n.drag > d {
                d = n.drag;
            }
            i = i + 1;
        }
        assert(self.nebulae@.subrange(0, i as int) =~= self.nebulae@);
        d
    }

    /// Is a ship at the point hidden from sensors?
    pub fn hidden_at(&self, x: i32, y: i32) -> (r: bool)
        ensures
            r == exists|i: int|
                0 <= i < self.nebulae@.len() && is_inside(
                    #[trigger] self.nebulae@[i],
                    x as int,
                    y as int,
                ),
    {
        let mut i: usize = 0;
        while i < self.nebulae.len()
            invariant
                i <= self.nebulae@.len(),
                forall|j: int|
                    0 <= j < i ==> !is_inside(#[trigger] self.nebulae@[j], x as int, y as int),
            decreases self.nebulae@.len() - i,
        {
            if self.nebulae[i].contains(x, y) {
                assert(is_inside(self.nebulae@[i as int], x as int, y as int));
                return true;
            }
            i = i + 1;
        }
        false
    }

    /// Is a ship at the point destroyed?
    pub fn lethal_at(&self, x: i32, y: i32) -> (r: bool)
        ensures
            r == exists|i: int|
                0 <= i < self.wells@.len() && is_lethal(
                    #[trigger] self.wells@[i],
                    x as int,
                    y as int,
                ),
    {
        let mut i: usize = 0;
        while i < self.wells.len()
            invariant
                i <= self.wells@.len(),
                forall|j: int|
                    0 <= j < i ==> !is_lethal(#[trigger] self.wells@[j], x as int, y as int),
            decreases self.wells@.len() - i,
        {
            if self.wells[i].lethal(x, y) {
                assert(is_lethal(self.wells@[i as int], x as int, y as int));
                return true;
            }
            i = i + 1;
        }
        false
    }
}

/// The drag of the strongest nebula around a point.
pub open spec fn strongest(nebulae: Seq<Nebula>, x: int, y: int) -> u32
    decreases nebulae.len(),
{
    if nebulae.len() == 0 {
        0
    } else {
        let rest = strongest(nebulae.drop_last(), x, y);
        let n = nebulae.last();
        if is_inside(n, x, y) && n.drag > rest {
            n.drag
        } else {
            rest
        }
    }
}

/// The home sector is calm.
pub proof fn law_home_is_calm(sector: SectorId)
    requires
        is_home(sector),
    ensures
        wells_of(sector).len() == 0,
        nebulae_of(sector).len() == 0,
{
}

/// A sector has at most two wells and three nebulae, and none of them reaches its edges, so that a ship
/// never enters a sector inside of a hazard.
pub proof fn law_hazards_keep_off_the_edges(sector: SectorId, i: int)
    ensures
        wells_of(sector).len() <= 2,
        nebulae_of(sector).len() <= 3,
        0 <= i < wells_of(sector).len() ==> {
            let w = wells_of(sector)[i];
            &&& 0 < w.x - w.radius && w.x + w.radius < 100 * SECTOR_SIZE
            &&& 0 < w.y - w.radius && w.y + w.radius < 100 * SECTOR_SIZE
            &&& w.core_radius < w.radius
        },
        0 <= i < nebulae_of(sector).len() ==> {
            let n = nebulae_of(sector)[i];
            &&& 0 < n.x - n.radius && n.x + n.radius < 100 * SECTOR_SIZE
            &&& 0 < n.y - n.radius && n.y + n.radius < 100 * SECTOR_SIZE
        },
{
}

/// A point is in a circle by its distance from the middle, along both axes: at an offset of `dx` and `dy` exactly where
/// their squares add up to no more than that of the radius. A point of the edge is in it.
pub proof fn law_circles_are_round(cx: int, cy: int, r: int, dx: int, dy: int)
    ensures
        in_circle(cx, cy, r, cx + dx, cy + dy) <==> dx * dx + dy * dy <= r * r,
        in_circle(cx, cy, r, cx + dx, cy + dy) == in_circle(cx, cy, r, cx + dy, cy - dx),
        r >= 0 ==> in_circle(cx, cy, r, cx + r, cy) && in_circle(cx, cy, r, cx, cy - r),
        r >= 0 ==> !in_circle(cx, cy, r, cx + r + 1, cy) && !in_circle(cx, cy, r, cx, cy + r + 1),
{
    assert((cx - (cx + dx)) * (cx - (cx + dx)) == dx * dx) by (nonlinear_arith);
    assert((cy - (cy + dy)) * (cy - (cy + dy)) == dy * dy) by (nonlinear_arith);
    assert((cx - (cx + dy)) * (cx - (cx + dy)) == dy * dy) by (nonlinear_arith);
    assert((cy - (cy - dx)) * (cy - (cy - dx)) == dx * dx) by (nonlinear_arith);
    assert((cx - (cx + r)) * (cx - (cx + r)) == r * r) by (nonlinear_arith);
    assert((cy - (cy - r)) * (cy - (cy - r)) == r * r) by (nonlinear_arith);
    assert((cx - cx) * (cx - cx) == 0 && (cy - cy) * (cy - cy) == 0);
    if r >= 0 {
        assert((cx - (cx + r + 1)) * (cx - (cx + r + 1)) > r * r) by (nonlinear_arith)
            requires
                r >= 0,
        ;
        assert((cy - (cy + r + 1)) * (cy - (cy + r + 1)) > r * r) by (nonlinear_arith)
            requires
                r >= 0,
        ;
    }
}

/// Only the core of a black hole destroys: a point is lethal exactly where it lies in it, in both coordinates.
pub proof fn law_only_black_holes_kill(w: Well, x: int, y: int)
    ensures
        is_lethal(w, x, y) <==> w.kind is BlackHole && (x - w.x) * (x - w.x) + (y - w.y) * (y - w.y)
            <= w.core_radius * w.core_radius,
{
    assert((x - w.x) * (x - w.x) == (w.x - x) * (w.x - x)) by (nonlinear_arith);
    assert((y - w.y) * (y - w.y) == (w.y - y) * (w.y - y)) by (nonlinear_arith);
}

/// The drag at a point is that of some nebula around it, and no nebula around it has more; in open space there is none.
pub proof fn law_strongest_nebula_drags(nebulae: Seq<Nebula>, x: int, y: int, k: int)
    requires
        0 <= k < nebulae.len(),
    ensures
        ({
            let n = nebulae[k];
            (x - n.x) * (x - n.x) + (y - n.y) * (y - n.y) <= n.radius * n.radius ==> n.drag <= strongest(
                nebulae,
                x,
                y,
            )
        }),
        strongest(nebulae, x, y) == 0 || exists|j: int|
            0 <= j < nebulae.len() && is_inside(#[trigger] nebulae[j], x, y) && nebulae[j].drag
                == strongest(nebulae, x, y),
    decreases nebulae.len(),
{
    let rest = nebulae.drop_last();
    let n = nebulae[k];
    assert((x - n.x) * (x - n.x) == (n.x - x) * (n.x - x)) by (nonlinear_arith);
    assert((y - n.y) * (y - n.y) == (n.y - y) * (n.y - y)) by (nonlinear_arith);
    assert(nebulae[nebulae.len() - 1] == nebulae.last());
    if rest.len() > 0 {
        law_strongest_nebula_drags(
            rest,
            x,
            y,
            if k < rest.len() {
                k
            } else {
                0
            },
        );
        if k < rest.len() {
            assert(rest[k] == nebulae[k]);
        }
        if strongest(rest, x, y) != 0 {
            let j = choose|j: int|
                0 <= j < rest.len() && is_inside(#[trigger] rest[j], x, y) && rest[j].drag == strongest(
                    rest,
                    x,
                    y,
                );
            assert(nebulae[j] == rest[j]);
        }
    } else {
        assert(strongest(rest, x, y) == 0);
    }
}

/// Hazards lie between 18 and 82 hundredths of the way across a sector, at one of a thousand even steps.
pub proof fn law_hazards_are_set_evenly(v: u32, w: u32)
    ensures
        100 * 1620 <= inset(v) <= 100 * 7380,
        v % 1000 == 0 ==> inset(v) == 100 * 1620,
        v % 1000 != 999 && w == v + 1 ==> inset(w) - inset(v) == 576,
        v % 1000 == w % 1000 ==> inset(v) == inset(w),
{
}

/// Of twelve draws one is a black hole, two are stars and nine are planets.
pub proof fn law_kinds_of_wells(v: u32)
    ensures
        well_kind(v) is BlackHole <==> v % 12 == 0,
        well_kind(v) is Star <==> v % 12 == 1 || v % 12 == 2,
        well_kind(v) is Planet <==> v % 12 >= 3,
{
}

/// Of ten draws two leave a sector without wells, five give it one and three give it two; nebulae come in equal shares
/// of none to three.
pub proof fn law_how_many_hazards(sector: SectorId)
    ensures
        ({
            let n = grown_from(sector, "nwell"@) % 10;
            &&& well_count(sector) == 0 <==> n < 2
            &&& well_count(sector) == 1 <==> 2 <= n < 7
            &&& well_count(sector) == 2 <==> n >= 7
        }),
        nebula_count(sector) == grown_from(sector, "nneb"@) % 4,
        sector.sx != 0 || sector.sy != 0 ==> wells_of(sector).len() == well_count(sector)
            && nebulae_of(sector).len() == nebula_count(sector),
        sector.sx == 0 && sector.sy == 0 ==> wells_of(sector).len() == 0 && nebulae_of(sector).len()
            == 0,
{
}

/// What kind a well is decides how far it pulls, how large its body is and how heavy it can be; the draw then adds up
/// to four steps of mass.
pub proof fn law_wells_by_kind(sector: SectorId, i: int)
    requires
        sector.sx != 0 || sector.sy != 0,
        0 <= i < well_count(sector),
    ensures
        ({
            let w = wells_of(sector)[i];
            let m = grown_from_nth(sector, "wm"@, i) % 5;
            &&& w.kind == well_kind(grown_from_nth(sector, "wk"@, i))
            &&& w.x == inset(grown_from_nth(sector, "wx"@, i))
            &&& w.y == inset(grown_from_nth(sector, "wy"@, i))
            &&& w.kind is Planet ==> w.radius == 520 * 100 && w.core_radius == 70 * 100 && w.mass == 11 + 2 * m
            &&& w.kind is Star ==> w.radius == 760 * 100 && w.core_radius == 95 * 100 && w.mass == 20 + 3 * m
            &&& w.kind is BlackHole ==> w.radius == 900 * 100 && w.core_radius == 46 * 100 && w.mass == 36 + 5 * m
        }),
{
}

/// A nebula is 280 to 599 units wide from its middle, and drags like every other.
pub proof fn law_nebulae_by_draw(sector: SectorId, i: int)
    requires
        sector.sx != 0 || sector.sy != 0,
        0 <= i < nebula_count(sector),
    ensures
        ({
            let n = nebulae_of(sector)[i];
            &&& n.x == inset(grown_from_nth(sector, "nx"@, i))
            &&& n.y == inset(grown_from_nth(sector, "ny"@, i))
            &&& n.radius == 100 * (280 + grown_from_nth(sector, "nr"@, i) % 320)
            &&& n.drag == 35
        }),
{
}

} // verus!
