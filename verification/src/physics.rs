//! What the physics of a sector decides: how carefully a body is simulated, and which pairs of bodies
//! may touch.
//!
//! Bodies near somebody who watches get many small steps, those further out fewer, and those that
//! nobody watches only coast. Lengths are whole units.
use vstd::prelude::*;

use crate::aabb::dynamic::{has_gained, has_moved, law_query_is_exact, DynamicAabbTree};
use crate::aabb::{encloses, growable, grown, overlaps, Aabb};
use crate::sort::lemma_filter_push;

verus! {

/// How carefully a body is simulated.
#[derive(Debug, Clone, Copy, PartialEq, Eq, Structural)]
pub enum Lod {
    High,
    Medium,
    Low,
    /// It coasts, and collides with nothing.
    Registered,
}

/// The steps into which a tick is cut, and the rounds of the solver in each.
pub open spec fn budget_of(l: Lod) -> (u32, u32) {
    match l {
        Lod::High => (4, 8),
        Lod::Medium => (2, 4),
        Lod::Low => (1, 2),
        Lod::Registered => (1, 0),
    }
}

impl Lod {
    /// The steps into which a tick is cut, and the rounds of the solver in each.
    pub fn budget(self) -> (b: (u32, u32))
        ensures
            b == budget_of(self),
    {
        match self {
            Lod::High => (4, 8),
            Lod::Medium => (2, 4),
            Lod::Low => (1, 2),
            Lod::Registered => (1, 0),
        }
    }
}

#[derive(Debug, Clone, Copy, PartialEq, Eq, Structural)]
pub struct Point {
    pub x: i32,
    pub y: i32,
}

/// The square of the distance between two points.
pub open spec fn apart2(a: Point, b: Point) -> int {
    (a.x - b.x) * (a.x - b.x) + (a.y - b.y) * (a.y - b.y)
}

/// One of the focus points is at most `r` away.
pub open spec fn watched(p: Point, focus: Seq<Point>, r: i32) -> bool {
    r >= 0 && exists|i: int| 0 <= i < focus.len() && apart2(p, #[trigger] focus[i]) <= r * r
}

/// The tier of a body.
pub open spec fn tier_of(p: Point, focus: Seq<Point>, high_r: i32, med_r: i32, low_r: i32) -> Lod {
    if watched(p, focus, high_r) {
        Lod::High
    } else if watched(p, focus, med_r) {
        Lod::Medium
    } else if watched(p, focus, low_r) {
        Lod::Low
    } else {
        Lod::Registered
    }
}

fn distance2(a: Point, b: Point) -> (d: u128)
    ensures
        d == apart2(a, b),
{
    let dx: i128 = a.x as i128 - b.x as i128;
    let dy: i128 = a.y as i128 - b.y as i128;
    assert(0 <= dx * dx <= 0x1_0000_0000 * 0x1_0000_0000 && 0 <= dy * dy <= 0x1_0000_0000
        * 0x1_0000_0000) by (nonlinear_arith)
        requires
            -0x1_0000_0000 <= dx <= 0x1_0000_0000,
            -0x1_0000_0000 <= dy <= 0x1_0000_0000,
    ;
    (dx * dx + dy * dy) as u128
}

fn is_watched(p: Point, focus: &Vec<Point>, r: i32) -> (w: bool)
    ensures
        w == watched(p, focus@, r),
{
    if r < 0 {
        return false;
    }
    assert(0 <= r * r <= 0x8000_0000 * 0x8000_0000) by (nonlinear_arith)
        requires
            0 <= r <= 0x8000_0000,
    ;
    let reach: u128 = (r as i128 * r as i128) as u128;
    let mut i: usize = 0;
    while i < focus.len()
        invariant
            i <= focus@.len(),
            r >= 0,
            reach == r * r,
            forall|j: int| 0 <= j < i ==> apart2(p, #[trigger] focus@[j]) > r * r,
        decreases focus@.len() - i,
    {
        if distance2(p, focus[i]) <= reach {
            assert(apart2(p, focus@[i as int]) <= r * r);
            return true;
        }
        i = i + 1;
    }
    false
}

/// The tier of every body, by its distance to the nearest focus point.
pub fn assign_lod(
    bodies: &Vec<Point>,
    focus: &Vec<Point>,
    high_r: i32,
    med_r: i32,
    low_r: i32,
) -> (r: Vec<Lod>)
    ensures
        r@.len() == bodies@.len(),
        forall|i: int|
            0 <= i < r@.len() ==> #[trigger] r@[i] == tier_of(
                bodies@[i],
                focus@,
                high_r,
                med_r,
                low_r,
            ),
{
    let mut out: Vec<Lod> = Vec::new();
    let mut i: usize = 0;
    while i < bodies.len()
        invariant
            i <= bodies@.len(),
            out@.len() == i,
            forall|j: int|
                0 <= j < i ==> #[trigger] out@[j] == tier_of(
                    bodies@[j],
                    focus@,
                    high_r,
                    med_r,
                    low_r,
                ),
        decreases bodies@.len() - i,
    {
        let p: Point = bodies[i];
        out.push(
            if is_watched(p, focus, high_r) {
                Lod::High
            } else if is_watched(p, focus, med_r) {
                Lod::Medium
            } else if is_watched(p, focus, low_r) {
                Lod::Low
            } else {
                Lod::Registered
            },
        );
        i = i + 1;
    }
    out
}

/// The largest of the budgets: a step at least, and no round where there is no body.
pub open spec fn plan_of(lods: Seq<Lod>) -> (u32, u32)
    decreases lods.len(),
{
    if lods.len() == 0 {
        (1, 0)
    } else {
        let rest = plan_of(lods.drop_last());
        let b = budget_of(lods.last());
        (
            if b.0 > rest.0 {
                b.0
            } else {
                rest.0
            },
            if b.1 > rest.1 {
                b.1
            } else {
                rest.1
            },
        )
    }
}

/// The steps into which the world's tick is cut, and the rounds of the solver in each.
pub fn plan_step(lods: &Vec<Lod>) -> (r: (u32, u32))
    ensures
        r == plan_of(lods@),
{
    let mut substeps: u32 = 1;
    let mut rounds: u32 = 0;
    let mut i: usize = 0;
    assert(lods@.subrange(0, 0) =~= Seq::<Lod>::empty());
    while i < lods.len()
        invariant
            i <= lods@.len(),
            (substeps, rounds) == plan_of(lods@.subrange(0, i as int)),
        decreases lods@.len() - i,
    {
        let b: (u32, u32) = lods[i].budget();
        proof {
            let upto = lods@.subrange(0, i + 1);
            assert(upto.drop_last() =~= lods@.subrange(0, i as int));
            assert(upto.last() == lods@[i as int]);
        }
        if b.0 > substeps {
            substeps = b.0;
        }
        if b.1 > rounds {
            rounds = b.1;
        }
        i = i + 1;
    }
    assert(lods@.subrange(0, i as int) =~= lods@);
    (substeps, rounds)
}

/// Is a contact of two bodies solved? Not where one of them only coasts.
pub fn solves(a: Lod, b: Lod) -> (r: bool)
    ensures
        r == (a != Lod::Registered && b != Lod::Registered),
{
    a != Lod::Registered && b != Lod::Registered
}

/// A body that nobody watches closely never costs a round of the solver.
pub proof fn law_unwatched_bodies_are_cheap(p: Point, high_r: i32, med_r: i32, low_r: i32)
    ensures
        tier_of(p, Seq::empty(), high_r, med_r, low_r) == Lod::Registered,
        budget_of(tier_of(p, Seq::empty(), high_r, med_r, low_r)) == (1u32, 0u32),
{
}

/// The tiers step down with distance.
pub proof fn law_tiers_step_down(
    a: Point,
    b: Point,
    f: Point,
    high_r: i32,
    med_r: i32,
    low_r: i32,
)
    requires
        apart2(a, f) <= apart2(b, f),
        high_r <= med_r <= low_r,
    ensures
        budget_of(tier_of(a, seq![f], high_r, med_r, low_r)).0 >= budget_of(
            tier_of(b, seq![f], high_r, med_r, low_r),
        ).0,
        budget_of(tier_of(a, seq![f], high_r, med_r, low_r)).1 >= budget_of(
            tier_of(b, seq![f], high_r, med_r, low_r),
        ).1,
{
    let focus = seq![f];
    assert(focus[0] == f);
    assert forall|r: i32| #[trigger] watched(b, focus, r) implies watched(a, focus, r) by {
        assert(apart2(a, focus[0]) <= r * r);
    }
}

/// The boxes of the bodies, found by their indices.
pub struct BroadPhase {
    pub tree: DynamicAabbTree<usize>,
    /// The handle of each body.
    pub proxies: Vec<usize>,
}

/// The slack around the box of a body.
pub const SLACK: i32 = 8;

/// The two may touch: the box of the first overlaps the fat box of the second, and one of them moves.
pub open spec fn may_touch(
    b: BroadPhase,
    boxes: Seq<Aabb>,
    fixed: Seq<bool>,
    i: int,
    j: int,
) -> bool {
    &&& overlaps(b.fat(j), boxes[i])
    &&& !(fixed[i] && fixed[j])
}

/// A body that is paired with the body `i`: a later one, where not both are fixed.
pub open spec fn pairs_up(fixed: Seq<bool>, i: int) -> spec_fn(usize) -> bool {
    |j: usize| i < j && !(fixed[i] && fixed[j as int])
}

/// The pairs of the first `n` bodies with later ones: by the first body, and for each in the order in
/// which the tree comes upon the second.
pub open spec fn pairs_of(
    b: BroadPhase,
    boxes: Seq<Aabb>,
    fixed: Seq<bool>,
    n: nat,
) -> Seq<(usize, usize)>
    decreases n,
{
    if n == 0 {
        Seq::empty()
    } else {
        let i = (n - 1) as usize;
        pairs_of(b, boxes, fixed, (n - 1) as nat) + b.near(boxes[i as int]).filter(
            pairs_up(fixed, i as int),
        ).map_values(|j: usize| (i, j))
    }
}

impl BroadPhase {
    /// The bodies whose fat boxes overlap a box, in the order in which the tree comes upon them.
    pub open spec fn near(&self, q: Aabb) -> Seq<usize> {
        self.tree.found(q).map_values(|p: usize| self.tree@[p].payload)
    }

    /// Every body has a leaf of its own, and every leaf a body.
    pub open spec fn wf(&self) -> bool {
        &&& self.tree.wf()
        &&& self.tree.fat_margin == SLACK
        &&& forall|i: int|
            0 <= i < self.proxies@.len() ==> self.tree@.contains_key(#[trigger] self.proxies@[i])
                && self.tree@[self.proxies@[i]].payload == i
        &&& forall|p: usize| #[trigger]
            self.tree@.contains_key(p) ==> self.tree@[p].payload < self.proxies@.len()
                && self.proxies@[self.tree@[p].payload as int] == p
    }

    /// The fat box of a body.
    pub open spec fn fat(&self, i: int) -> Aabb {
        self.tree@[self.proxies@[i]].fat
    }

    pub fn new() -> (b: Self)
        ensures
            b.wf(),
            b.proxies@.len() == 0,
            b.tree.is_new(),
            b.tree.has_room(),
    {
        BroadPhase { tree: DynamicAabbTree::new(SLACK), proxies: Vec::new() }
    }

    /// Adds the next body. The result is its index.
    pub fn add(&mut self, tight: Aabb) -> (i: usize)
        requires
            old(self).wf(),
            old(self).tree.has_room(),
            growable(tight, SLACK as int),
        ensures
            final(self).wf(),
            i == old(self).proxies@.len(),
            final(self).proxies@.len() == old(self).proxies@.len() + 1,
            final(self).fat(i as int) == grown(tight, SLACK as int),
            forall|k: int| 0 <= k < i ==> #[trigger] final(self).fat(k) == old(self).fat(k),
            final(self).proxies@.drop_last() == old(self).proxies@,
            has_gained(
                old(self).tree,
                final(self).tree,
                final(self).proxies@.last(),
                grown(tight, SLACK as int),
            ),
            final(self).tree.nodes@.len() <= old(self).tree.nodes@.len() + 2,
    {
        let i: usize = self.proxies.len();
        let p: usize = self.tree.insert(tight, i);
        self.proxies.push(p);
        assert(self.proxies@.drop_last() =~= old(self).proxies@);
        i
    }

    /// Follows a body that moved. The result says whether its leaf was filed anew.
    pub fn refit(&mut self, i: usize, tight: Aabb) -> (refiled: bool)
        requires
            old(self).wf(),
            i < old(self).proxies@.len(),
            growable(tight, SLACK as int),
        ensures
            final(self).wf(),
            final(self).proxies@ == old(self).proxies@,
            refiled == !encloses(old(self).fat(i as int), tight),
            !refiled ==> *final(self) == *old(self),
            refiled ==> has_moved(
                old(self).tree,
                final(self).tree,
                old(self).proxies@[i as int],
                grown(tight, SLACK as int),
            ),
            final(self).fat(i as int) == (if refiled {
                grown(tight, SLACK as int)
            } else {
                old(self).fat(i as int)
            }),
            forall|k: int|
                0 <= k < old(self).proxies@.len() && k != i ==> #[trigger] final(self).fat(k)
                    == old(self).fat(k),
    {
        let p: usize = self.proxies[i];
        self.tree.update(p, tight)
    }

    /// The pairs of bodies that may touch, each once, with the smaller index first; in the order of that
    /// index, and then as the tree comes upon the other.
    pub fn pairs(&self, boxes: &Vec<Aabb>, fixed: &Vec<bool>) -> (r: Vec<(usize, usize)>)
        requires
            self.wf(),
            boxes@.len() == self.proxies@.len(),
            fixed@.len() == self.proxies@.len(),
        ensures
            forall|i: usize, j: usize| #[trigger]
                r@.contains((i, j)) <==> i < j && j < boxes@.len() && may_touch(
                    *self,
                    boxes@,
                    fixed@,
                    i as int,
                    j as int,
                ),
            r@.no_duplicates(),
            r@ == pairs_of(*self, boxes@, fixed@, boxes@.len()),
    {
        let mut out: Vec<(usize, usize)> = Vec::new();
        let mut i: usize = 0;
        while i < boxes.len()
            invariant
                i <= boxes@.len(),
                self.wf(),
                boxes@.len() == self.proxies@.len(),
                fixed@.len() == self.proxies@.len(),
                out@ == pairs_of(*self, boxes@, fixed@, i as nat),
                out@.no_duplicates(),
                forall|a: usize, b: usize| #[trigger]
                    out@.contains((a, b)) <==> a < i && a < b && b < boxes@.len() && may_touch(
                        *self,
                        boxes@,
                        fixed@,
                        a as int,
                        b as int,
                    ),
            decreases boxes@.len() - i,
        {
            let near = self.tree.query(&boxes[i]);
            let ghost before = out@;
            let ghost found = self.tree.found(boxes@[i as int]);
            let ghost later = pairs_up(fixed@, i as int);
            let ghost with_i = |j: usize| (i, j);
            let mut k: usize = 0;
            proof {
                assert forall|m: int| 0 <= m < near@.len() implies #[trigger] near@[m]
                    < self.proxies@.len() && self.proxies@[near@[m] as int] == found[m] by {
                    law_query_is_exact(self.tree, boxes@[i as int], found[m]);
                    assert(found.contains(found[m]));
                    assert(cloned::<usize>(self.tree@[found[m]].payload, near@[m]));
                }
                assert(near@ =~= self.near(boxes@[i as int])) by {
                    assert forall|m: int| 0 <= m < near@.len() implies near@[m]
                        == self.tree@[found[m]].payload by {
                        assert(cloned::<usize>(self.tree@[found[m]].payload, near@[m]));
                    }
                }
                reveal(Seq::filter);
                assert(near@.subrange(0, 0) =~= Seq::<usize>::empty());
                assert(out@ =~= before + near@.subrange(0, 0).filter(later).map_values(with_i));
                law_query_is_exact(self.tree, boxes@[i as int], 0);
            }
            while k < near.len()
                invariant
                    k <= near@.len(),
                    i < boxes@.len(),
                    self.wf(),
                    boxes@.len() == self.proxies@.len(),
                    fixed@.len() == self.proxies@.len(),
                    near@.len() == found.len(),
                    found == self.tree.found(boxes@[i as int]),
                    found.no_duplicates(),
                    forall|m: int|
                        0 <= m < near@.len() ==> #[trigger] near@[m] < self.proxies@.len()
                            && self.proxies@[near@[m] as int] == found[m],
                    later == pairs_up(fixed@, i as int),
                    with_i == (|j: usize| (i, j)),
                    out@ == before + near@.subrange(0, k as int).filter(later).map_values(with_i),
                    out@.no_duplicates(),
                    forall|a: usize, b: usize| #[trigger]
                        out@.contains((a, b)) <==> before.contains((a, b)) || (a == i && i < b
                            && !(fixed@[i as int] && fixed@[b as int]) && exists|m: int|
                            0 <= m < k && #[trigger] near@[m] == b),
                    forall|b: usize| !before.contains((i, b)),
                decreases near@.len() - k,
            {
                let j: usize = near[k];
                let ghost sofar = out@;
                let ghost part = near@.subrange(0, k as int);
                proof {
                    assert(near@.subrange(0, k + 1) =~= part.push(j));
                    lemma_filter_push(part, j, later);
                }
                if j > i && !(fixed[i] && fixed[j]) {
                    proof {
                        assert forall|m: int| 0 <= m < k implies near@[m] != j by {
                            assert(found[m] != found[k as int]);
                        }
                        assert(!sofar.contains((i, j)));
                    }
                    out.push((i, j));
                    proof {
                        assert(out@ =~= before + part.filter(later).push(j).map_values(with_i));
                        lemma_push_contains(sofar, (i, j));
                    }
                }
                proof {
                    assert forall|a: usize, b: usize| #[trigger]
                        out@.contains((a, b)) <==> before.contains((a, b)) || (a == i && i < b
                            && !(fixed@[i as int] && fixed@[b as int]) && exists|m: int|
                            0 <= m < k + 1 && #[trigger] near@[m] == b) by {
                        if a == i && b == j {
                            assert(near@[k as int] == b);
                        }
                        assert(out@.contains((a, b)) <==> sofar.contains((a, b)) || (a == i && b
                            == j && j > i && !(fixed@[i as int] && fixed@[j as int])));
                    }
                }
                k = k + 1;
            }
            proof {
                assert(near@.subrange(0, k as int) =~= near@);
                assert forall|a: usize, b: usize| #[trigger]
                    out@.contains((a, b)) <==> a < i + 1 && a < b && b < boxes@.len()
                        && may_touch(*self, boxes@, fixed@, a as int, b as int) by {
                    if a == i && b < boxes@.len() {
                        let p = self.proxies@[b as int];
                        law_query_is_exact(self.tree, boxes@[i as int], p);
                        if overlaps(self.fat(b as int), boxes@[i as int]) {
                            let m = choose|m: int| 0 <= m < found.len() && found[m] == p;
                            assert(self.proxies@[near@[m] as int] == p);
                            assert(self.tree@[p].payload == b);
                            assert(near@[m] == b);
                        }
                        if exists|m: int| 0 <= m < near@.len() && #[trigger] near@[m] == b {
                            let m = choose|m: int| 0 <= m < near@.len() && #[trigger] near@[m] == b;
                            assert(found[m] == p);
                            assert(found.contains(p));
                        }
                    }
                }
            }
            i = i + 1;
        }
        out
    }
}

proof fn lemma_push_contains(s: Seq<(usize, usize)>, x: (usize, usize))
    ensures
        forall|y: (usize, usize)| #[trigger] s.push(x).contains(y) <==> s.contains(y) || y == x,
{
    let more = s.push(x);
    assert(more[s.len() as int] == x);
    assert forall|y: (usize, usize)| #[trigger] more.contains(y) <==> s.contains(y) || y == x by {
        if s.contains(y) {
            let i = choose|i: int| 0 <= i < s.len() && s[i] == y;
            assert(more[i] == y);
        }
    }
}

/// No pair of bodies whose boxes overlap is missed, as long as every fat box holds its body's box.
pub proof fn law_no_contact_is_missed(
    b: BroadPhase,
    boxes: Seq<Aabb>,
    fixed: Seq<bool>,
    i: int,
    j: int,
)
    requires
        overlaps(boxes[i], boxes[j]),
        encloses(b.fat(j), boxes[j]),
        !(fixed[i] && fixed[j]),
    ensures
        may_touch(b, boxes, fixed, i, j),
{
}

/// How carefully a body is simulated goes by its distance from what is watched, in both coordinates. Within the high radius
/// of any point that is watched it is simulated with full care; beyond it of all, but within the medium radius of one, with
/// less; and so on. Where nothing is near it only coasts.
pub proof fn law_care_goes_by_distance(
    p: Point,
    focus: Seq<Point>,
    high_r: i32,
    med_r: i32,
    low_r: i32,
    k: int,
)
    requires
        0 <= k < focus.len(),
        0 <= high_r <= med_r <= low_r,
    ensures
        ({
            let dx = focus[k].x - p.x;
            let dy = focus[k].y - p.y;
            let d2 = dx * dx + dy * dy;
            let tier = tier_of(p, focus, high_r, med_r, low_r);
            &&& d2 <= high_r * high_r ==> tier == Lod::High
            &&& d2 <= med_r * med_r ==> tier == Lod::High || tier == Lod::Medium
            &&& d2 <= low_r * low_r ==> tier != Lod::Registered
            &&& focus.len() == 1 && d2 > high_r * high_r ==> tier != Lod::High
            &&& focus.len() == 1 && d2 > med_r * med_r ==> tier == Lod::Low || tier == Lod::Registered
            &&& focus.len() == 1 && d2 > low_r * low_r ==> tier == Lod::Registered
        }),
{
    let f = focus[k];
    let dx = f.x - p.x;
    let dy = f.y - p.y;
    assert((p.x - f.x) * (p.x - f.x) == dx * dx) by (nonlinear_arith)
        requires
            dx == f.x - p.x,
    ;
    assert((p.y - f.y) * (p.y - f.y) == dy * dy) by (nonlinear_arith)
        requires
            dy == f.y - p.y,
    ;
    assert(apart2(p, focus[k]) == dx * dx + dy * dy);
    assert(high_r * high_r <= med_r * med_r) by (nonlinear_arith)
        requires
            0 <= high_r <= med_r,
    ;
    assert(med_r * med_r <= low_r * low_r) by (nonlinear_arith)
        requires
            0 <= med_r <= low_r,
    ;
}

/// Watching one more point never takes care away from a body, and a body is simulated with the care that one of the points
/// asks for.
pub proof fn law_more_watchers_more_care(
    p: Point,
    focus: Seq<Point>,
    f: Point,
    r: i32,
)
    ensures
        watched(p, focus.push(f), r) <==> watched(p, focus, r) || (r >= 0 && (p.x - f.x) * (p.x - f.x)
            + (p.y - f.y) * (p.y - f.y) <= r * r),
        !watched(p, Seq::empty(), r),
{
    let more = focus.push(f);
    if watched(p, focus, r) {
        let i = choose|i: int| 0 <= i < focus.len() && apart2(p, #[trigger] focus[i]) <= r * r;
        assert(apart2(p, more[i]) <= r * r);
    }
    if r >= 0 && apart2(p, f) <= r * r {
        assert(apart2(p, more[focus.len() as int]) <= r * r);
    }
    if watched(p, more, r) {
        let i = choose|i: int| 0 <= i < more.len() && apart2(p, #[trigger] more[i]) <= r * r;
        if i < focus.len() {
            assert(apart2(p, focus[i]) <= r * r);
        }
    }
}

/// The world is stepped as finely as its most careful body needs: no body needs more, and some body, or the least there is,
/// needs as much. Each tier takes at least twice the steps of the solver of the next.
pub proof fn law_world_steps_for_its_finest(lods: Seq<Lod>, k: int)
    requires
        0 <= k < lods.len(),
    ensures
        plan_of(lods).0 >= budget_of(lods[k]).0,
        plan_of(lods).1 >= budget_of(lods[k]).1,
        plan_of(lods).0 == 1 || exists|i: int|
            0 <= i < lods.len() && budget_of(#[trigger] lods[i]).0 == plan_of(lods).0,
        plan_of(lods).1 == 0 || exists|i: int|
            0 <= i < lods.len() && budget_of(#[trigger] lods[i]).1 == plan_of(lods).1,
        budget_of(Lod::High).0 == 2 * budget_of(Lod::Medium).0,
        budget_of(Lod::Medium).0 == 2 * budget_of(Lod::Low).0,
        budget_of(Lod::High).1 == 2 * budget_of(Lod::Medium).1,
        budget_of(Lod::Medium).1 == 2 * budget_of(Lod::Low).1,
        budget_of(Lod::Low).1 == 2 && budget_of(Lod::Low).0 == 1 && budget_of(Lod::Registered) == (
            1u32,
            0u32,
        ),
    decreases lods.len(),
{
    let rest = lods.drop_last();
    assert(lods[lods.len() - 1] == lods.last());
    if rest.len() > 0 {
        law_world_steps_for_its_finest(
            rest,
            if k < rest.len() {
                k
            } else {
                0
            },
        );
        if k < rest.len() {
            assert(rest[k] == lods[k]);
        }
        if plan_of(rest).0 != 1 {
            let i = choose|i: int|
                0 <= i < rest.len() && budget_of(#[trigger] rest[i]).0 == plan_of(rest).0;
            assert(lods[i] == rest[i]);
        }
        if plan_of(rest).1 != 0 {
            let i = choose|i: int|
                0 <= i < rest.len() && budget_of(#[trigger] rest[i]).1 == plan_of(rest).1;
            assert(lods[i] == rest[i]);
        }
    } else {
        assert(plan_of(rest) == (1u32, 0u32));
    }
}

/// Two bodies may touch exactly where the box of the one meets the fat box of the other along both axes, edges included, and
/// one of them moves.
pub proof fn law_contacts_in_coordinates(b: BroadPhase, boxes: Seq<Aabb>, fixed: Seq<bool>, i: int, j: int)
    ensures
        may_touch(b, boxes, fixed, i, j) <==> {
            &&& b.fat(j).min_x <= boxes[i].max_x && boxes[i].min_x <= b.fat(j).max_x
            &&& b.fat(j).min_y <= boxes[i].max_y && boxes[i].min_y <= b.fat(j).max_y
            &&& !fixed[i] || !fixed[j]
        },
{
}

} // verus!
