//! The adaptive galaxy: a quadtree of authoritative cells that subdivides where the crowds are and
//! merges where they are not.
//!
//! A leaf cell is one simulation on one node. When a cell gets hot it splits into its four children,
//! when four siblings go cold they merge into their parent. Both decisions are functions of measured
//! load alone, so every node reaches the same verdict and the same shape.
use vstd::arithmetic::power2::*;
use vstd::prelude::*;
use vstd::string::*;

use crate::order::{Ordered, SortedSet};
use crate::text::{char_seqs, dec, fields, parse_unsigned, parsed, push_dec, split_fields};

verus! {

/// World coordinates, in whole units. A position between two units is in the cell of the lower one:
/// the side of every cell is a whole number of units.
pub type World = i64;

/// The side of the root cell: a power of two, so the sides of all cells are.
pub const ROOT_SPAN: World = 1_125_899_906_842_624;

/// Half of the root cell's side: the plane is centred on the origin.
pub const ROOT_HALF: World = 562_949_953_421_312;

/// The deepest subdivision.
pub const MAX_DEPTH: u8 = 30;

/// A square of the world: a cell's footprint.
#[derive(Debug, Clone, Copy, PartialEq, Eq, Structural)]
pub struct WorldRect {
    pub x: World,
    pub y: World,
    pub span: World,
}

impl WorldRect {
    pub open spec fn holds(&self, wx: int, wy: int) -> bool {
        self.x <= wx < self.x + self.span && self.y <= wy < self.y + self.span
    }

    /// Is the point in the square? The low edges belong to it, the high ones do not.
    pub fn contains(&self, wx: World, wy: World) -> (r: bool)
        ensures
            r == self.holds(wx as int, wy as int),
    {
        let (x, y, span): (i128, i128, i128) = (self.x as i128, self.y as i128, self.span as i128);
        self.x <= wx && (wx as i128) < x + span && self.y <= wy && (wy as i128) < y + span
    }

    /// The middle of the square, rounded down to a unit.
    pub fn center(&self) -> (r: (World, World))
        requires
            i64::MIN <= self.x + self.span / 2 <= i64::MAX,
            i64::MIN <= self.y + self.span / 2 <= i64::MAX,
            0 <= self.span,
        ensures
            r.0 == self.x + self.span / 2,
            r.1 == self.y + self.span / 2,
    {
        (self.x + self.span / 2, self.y + self.span / 2)
    }

    /// The square grown by `pad` on every side.
    pub fn expanded(&self, pad: World) -> (r: WorldRect)
        requires
            i64::MIN <= self.x - pad <= i64::MAX,
            i64::MIN <= self.y - pad <= i64::MAX,
            i64::MIN <= self.span + 2 * pad <= i64::MAX,
        ensures
            r.x == self.x - pad,
            r.y == self.y - pad,
            r.span == self.span + 2 * pad,
    {
        let span: i128 = self.span as i128 + 2 * pad as i128;
        WorldRect { x: self.x - pad, y: self.y - pad, span: span as i64 }
    }
}

/// The address of a cell: a depth and a position on the grid of that depth. Depth 0 is the root, and
/// each step down doubles the resolution. The same patch of space has the same address everywhere.
#[derive(Debug, Clone, Copy, PartialEq, Eq, PartialOrd, Ord, Hash, Structural)]
pub struct CellId {
    pub depth: u8,
    pub x: u32,
    pub y: u32,
}

impl View for CellId {
    type V = CellId;

    open spec fn view(&self) -> CellId {
        *self
    }
}

impl Ordered for CellId {
    open spec fn below(a: CellId, b: CellId) -> bool {
        a.depth < b.depth || (a.depth == b.depth && (a.x < b.x || (a.x == b.x && a.y < b.y)))
    }

    fn is_below(&self, other: &Self) -> (r: bool) {
        self.depth < other.depth || (self.depth == other.depth && (self.x < other.x || (self.x
            == other.x && self.y < other.y)))
    }

    proof fn below_irreflexive(a: CellId) {
    }

    proof fn below_transitive(a: CellId, b: CellId, c: CellId) {
    }

    proof fn below_total(a: CellId, b: CellId) {
    }
}

pub open spec fn root_cell() -> CellId {
    CellId { depth: 0, x: 0, y: 0 }
}

/// The four children, or none at the deepest level.
pub open spec fn children_of(c: CellId) -> Seq<CellId> {
    if c.depth >= MAX_DEPTH {
        Seq::empty()
    } else {
        seq![child_of(c, 0, 0), child_of(c, 1, 0), child_of(c, 0, 1), child_of(c, 1, 1)]
    }
}

/// The child in column `i` and row `j`.
pub open spec fn child_of(c: CellId, i: int, j: int) -> CellId {
    CellId { depth: (c.depth + 1) as u8, x: (2 * c.x + i) as u32, y: (2 * c.y + j) as u32 }
}

/// The parent, or none for the root.
pub open spec fn parent_of(c: CellId) -> Option<CellId> {
    if c.depth > 0 {
        Some(CellId { depth: (c.depth - 1) as u8, x: c.x / 2, y: c.y / 2 })
    } else {
        None
    }
}

/// The neighbour at an offset, as a sequence: one cell, or none off the grid.
pub open spec fn neighbour(c: CellId, dx: int, dy: int) -> Seq<CellId> {
    let nx = (c.x + dx) as i64;
    let ny = (c.y + dy) as i64;
    let side = 1u32 << c.depth;
    if nx >= 0 && ny >= 0 && (nx as u32) < side && (ny as u32) < side {
        seq![CellId { depth: c.depth, x: nx as u32, y: ny as u32 }]
    } else {
        Seq::empty()
    }
}

/// The ring of neighbours, row by row.
pub open spec fn ring_of(c: CellId) -> Seq<CellId> {
    neighbour(c, -1, -1) + neighbour(c, 0, -1) + neighbour(c, 1, -1) + neighbour(c, -1, 0)
        + neighbour(c, 1, 0) + neighbour(c, -1, 1) + neighbour(c, 0, 1) + neighbour(c, 1, 1)
}

/// The bits of a number spread out to the even places: bit `i` goes to place `2 i`.
pub open spec fn spread(n: nat) -> nat
    decreases n,
{
    if n == 0 {
        0
    } else {
        n % 2 + 4 * spread(n / 2)
    }
}

/// The interleaved key: columns in the even bits, rows in the odd ones, the depth in the low byte.
pub open spec fn morton_of(c: CellId) -> nat {
    (spread(c.x as nat) + 2 * spread(c.y as nat)) * 256 + c.depth as nat
}

/// `depth.x.y` in decimal.
pub open spec fn token_of(c: CellId) -> Seq<char> {
    dec(c.depth as nat).push('.') + dec(c.x as nat).push('.') + dec(c.y as nat)
}

/// The cell that a token names.
pub open spec fn cell_of_token(token: Seq<char>) -> Option<CellId> {
    let f = fields(token, '.');
    if f.len() == 3 {
        match (parsed(f[0], 255), parsed(f[1], u32::MAX as nat), parsed(f[2], u32::MAX as nat)) {
            (Some(d), Some(x), Some(y)) => if d <= MAX_DEPTH {
                Some(CellId { depth: d as u8, x: x as u32, y: y as u32 })
            } else {
                None
            },
            _ => None,
        }
    } else {
        None
    }
}

/// The side of a cell at a depth.
pub open spec fn span_at(depth: int) -> int {
    pow2((50 - depth) as nat) as int
}

/// The column or row that a coordinate falls into at a depth; off the plane, the nearest one.
pub open spec fn index_at(depth: int, w: int) -> int {
    let i = (w + ROOT_HALF) / span_at(depth);
    if i < 0 {
        0
    } else if i >= pow2(depth as nat) {
        pow2(depth as nat) - 1
    } else {
        i
    }
}

/// The cell at a depth that covers a point.
pub open spec fn cell_at(depth: u8, wx: int, wy: int) -> CellId {
    CellId {
        depth,
        x: index_at(depth as int, wx) as u32,
        y: index_at(depth as int, wy) as u32,
    }
}

fn power_of_two(n: u8) -> (r: u64)
    requires
        n < 64,
    ensures
        r == pow2(n as nat),
{
    let mut out: u64 = 1;
    let mut i: u8 = 0;
    proof {
        lemma2_to64();
    }
    while i < n
        invariant
            i <= n < 64,
            out == pow2(i as nat),
        decreases n - i,
    {
        proof {
            lemma_pow2_unfold((i + 1) as nat);
            lemma_pow2_strictly_increases_to(i as nat + 1, 64);
        }
        out = out * 2;
        i = i + 1;
    }
    out
}

proof fn lemma_pow2_strictly_increases_to(a: nat, b: nat)
    requires
        a < b,
        b == 64,
    ensures
        pow2(a) < 0x1_0000_0000_0000_0000,
{
    lemma2_to64();
    lemma_pow2_strictly_increases(a, b);
}

proof fn lemma_spans(depth: u8)
    requires
        depth <= 50,
    ensures
        span_at(depth as int) > 0,
        pow2(depth as nat) > 0,
        span_at(depth as int) * pow2(depth as nat) == ROOT_SPAN,
        depth <= 32 ==> pow2(depth as nat) <= 0x1_0000_0000,
{
    lemma_pow2_pos((50 - depth) as nat);
    lemma_pow2_pos(depth as nat);
    lemma_pow2_adds((50 - depth) as nat, depth as nat);
    lemma2_to64();
    lemma2_to64_rest();
    if depth < 32 {
        lemma_pow2_strictly_increases(depth as nat, 32);
    }
}

impl CellId {
    /// The cell that covers the whole plane.
    pub fn root() -> (c: CellId)
        ensures
            c == root_cell(),
    {
        CellId { depth: 0, x: 0, y: 0 }
    }

    /// The address names a cell of the plane.
    pub open spec fn valid(&self) -> bool {
        self.depth <= MAX_DEPTH && self.x < pow2(self.depth as nat) && self.y < pow2(
            self.depth as nat,
        )
    }

    /// Does the address name a cell of the plane?
    pub fn is_valid(&self) -> (r: bool)
        ensures
            r == self.valid(),
    {
        if self.depth > MAX_DEPTH {
            return false;
        }
        proof {
            lemma2_to64();
            assert(1u64 << (self.depth as u64) == pow2(self.depth as nat)) by {
                vstd::bits::lemma_u64_shl_is_mul(1, self.depth as u64);
                vstd::arithmetic::power2::lemma_pow2_strictly_increases(self.depth as nat, 32);
            }
        }
        let side: u64 = 1u64 << (self.depth as u64);
        (self.x as u64) < side && (self.y as u64) < side
    }

    /// The positions of the children fit in their type.
    pub open spec fn divisible(&self) -> bool {
        self.depth < MAX_DEPTH ==> self.x < 0x8000_0000 && self.y < 0x8000_0000
    }

    /// The four children (north-west, north-east, south-west, south-east), one level finer.
    pub fn children(&self) -> (r: Vec<CellId>)
        requires
            self.divisible(),
        ensures
            r@ == children_of(*self),
    {
        if self.depth >= MAX_DEPTH {
            return Vec::new();
        }
        let d: u8 = self.depth + 1;
        let x: u32 = self.x * 2;
        let y: u32 = self.y * 2;
        let mut out: Vec<CellId> = Vec::with_capacity(4);
        out.push(CellId { depth: d, x, y });
        out.push(CellId { depth: d, x: x + 1, y });
        out.push(CellId { depth: d, x, y: y + 1 });
        out.push(CellId { depth: d, x: x + 1, y: y + 1 });
        assert(out@ =~= children_of(*self));
        out
    }

    /// The parent, one level coarser. Four siblings share a parent and merge into it.
    pub fn parent(&self) -> (r: Option<CellId>)
        ensures
            r == parent_of(*self),
    {
        if self.depth > 0 {
            Some(CellId { depth: self.depth - 1, x: self.x / 2, y: self.y / 2 })
        } else {
            None
        }
    }

    /// The siblings that merge with this cell, in the order of the children.
    pub fn siblings(&self) -> (r: Vec<CellId>)
        ensures
            r@ == (match parent_of(*self) {
                Some(p) => children_of(p).filter(|c: CellId| c != *self),
                None => Seq::empty(),
            }),
    {
        let mut out: Vec<CellId> = Vec::new();
        if let Some(p) = self.parent() {
            let all = p.children();
            let ghost keep = |c: CellId| c != *self;
            let mut i: usize = 0;
            proof {
                reveal(Seq::filter);
                assert(all@.subrange(0, 0) =~= Seq::<CellId>::empty());
            }
            while i < all.len()
                invariant
                    i <= all@.len(),
                    keep == (|c: CellId| c != *self),
                    out@ == all@.subrange(0, i as int).filter(keep),
                decreases all@.len() - i,
            {
                let c: CellId = all[i];
                proof {
                    assert(all@.subrange(0, i + 1) =~= all@.subrange(0, i as int).push(c));
                    crate::sort::lemma_filter_push(all@.subrange(0, i as int), c, keep);
                }
                if c != *self {
                    out.push(c);
                }
                i = i + 1;
            }
            assert(all@.subrange(0, i as int) =~= all@);
        }
        out
    }

    /// The footprint of the cell.
    pub fn rect(&self) -> (r: WorldRect)
        requires
            self.valid(),
        ensures
            r.span == span_at(self.depth as int),
            r.x == self.x * span_at(self.depth as int) - ROOT_HALF,
            r.y == self.y * span_at(self.depth as int) - ROOT_HALF,
    {
        proof {
            lemma_spans(self.depth);
            let s = span_at(self.depth as int);
            let n = pow2(self.depth as nat) as int;
            assert(0 <= self.x * s <= n * s) by (nonlinear_arith)
                requires
                    0 <= self.x < n,
                    s > 0,
            ;
            assert(0 <= self.y * s <= n * s) by (nonlinear_arith)
                requires
                    0 <= self.y < n,
                    s > 0,
            ;
            assert(n * s == s * n) by (nonlinear_arith);
            assert(s <= ROOT_SPAN) by (nonlinear_arith)
                requires
                    s * n == ROOT_SPAN,
                    n >= 1,
                    s > 0,
            ;
        }
        let span: i64 = power_of_two(50 - self.depth) as i64;
        let x: i64 = self.x as i64 * span - ROOT_HALF;
        let y: i64 = self.y as i64 * span - ROOT_HALF;
        WorldRect { x, y, span }
    }

    /// The cell at `depth` that covers a point of the world.
    pub fn at_depth_for(depth: u8, wx: World, wy: World) -> (c: CellId)
        requires
            depth <= 32,
        ensures
            c == cell_at(depth, wx as int, wy as int),
            depth <= MAX_DEPTH ==> c.valid(),
    {
        proof {
            lemma_spans(depth);
        }
        let x: u32 = axis_index(depth, wx);
        let y: u32 = axis_index(depth, wy);
        CellId { depth, x, y }
    }

    /// The up to eight neighbours at the same depth. Cells at the edge of the plane have fewer.
    pub fn ring(&self) -> (r: Vec<CellId>)
        requires
            self.depth < 32,
        ensures
            r@ == ring_of(*self),
    {
        let mut out: Vec<CellId> = Vec::with_capacity(8);
        self.push_neighbour(&mut out, -1, -1);
        self.push_neighbour(&mut out, 0, -1);
        self.push_neighbour(&mut out, 1, -1);
        self.push_neighbour(&mut out, -1, 0);
        self.push_neighbour(&mut out, 1, 0);
        self.push_neighbour(&mut out, -1, 1);
        self.push_neighbour(&mut out, 0, 1);
        self.push_neighbour(&mut out, 1, 1);
        assert(out@ =~= ring_of(*self));
        out
    }

    fn push_neighbour(&self, out: &mut Vec<CellId>, dx: i64, dy: i64)
        requires
            self.depth < 32,
            -1 <= dx <= 1,
            -1 <= dy <= 1,
        ensures
            final(out)@ == old(out)@ + neighbour(*self, dx as int, dy as int),
    {
        let side: u32 = 1u32 << self.depth;
        let nx: i64 = self.x as i64 + dx;
        let ny: i64 = self.y as i64 + dy;
        if nx >= 0 && ny >= 0 && (nx as u32) < side && (ny as u32) < side {
            out.push(CellId { depth: self.depth, x: nx as u32, y: ny as u32 });
        }
        assert(out@ =~= old(out)@ + neighbour(*self, dx as int, dy as int));
    }

    /// A dense key that interleaves the position and holds the depth: the input of rendezvous
    /// hashing, and a stable order of cells.
    pub fn morton(&self) -> (key: u128)
        ensures
            key == morton_of(*self),
    {
        let low: u64 = spread_bits(self.x);
        let high: u64 = spread_bits(self.y);
        proof {
            lemma2_to64();
            lemma_spread_bound(self.x as nat, 32);
            lemma_spread_bound(self.y as nat, 32);
        }
        (low as u128 + 2 * high as u128) * 256 + self.depth as u128
    }

    /// The token of the cell in topic names.
    pub fn token(&self) -> (s: String)
        ensures
            s@ == token_of(*self),
    {
        let mut s: String = String::new();
        push_dec(&mut s, self.depth as u64);
        s.push('.');
        push_dec(&mut s, self.x as u64);
        s.push('.');
        push_dec(&mut s, self.y as u64);
        assert(s@ =~= token_of(*self));
        s
    }

    /// The cell that a token names; none where it is malformed or too deep.
    pub fn parse(token: &str) -> (r: Option<CellId>)
        ensures
            r == cell_of_token(token@),
    {
        let parts = split_fields(token, '.');
        assert(parts@.len() == char_seqs(parts@).len());
        if parts.len() != 3 {
            return None;
        }
        assert(forall|i: int| 0 <= i < 3 ==> char_seqs(parts@)[i] == #[trigger] parts@[i]@);
        let depth = parse_unsigned(&parts[0], 255);
        let x = parse_unsigned(&parts[1], u32::MAX as u64);
        let y = parse_unsigned(&parts[2], u32::MAX as u64);
        match (depth, x, y) {
            (Some(d), Some(x), Some(y)) => {
                if d <= MAX_DEPTH as u64 {
                    Some(CellId { depth: d as u8, x: x as u32, y: y as u32 })
                } else {
                    None
                }
            },
            _ => None,
        }
    }
}

fn axis_index(depth: u8, w: World) -> (r: u32)
    requires
        depth <= 32,
    ensures
        r == index_at(depth as int, w as int),
        r < pow2(depth as nat),
{
    proof {
        lemma_spans(depth);
    }
    let span: i128 = power_of_two(50 - depth) as i128;
    let side: i128 = power_of_two(depth) as i128;
    let at: i128 = w as i128 + ROOT_HALF as i128;
    if at < 0 {
        proof {
            assert((at as int) / (span as int) < 0) by (nonlinear_arith)
                requires
                    at < 0,
                    span > 0,
            ;
        }
        return 0;
    }
    let i: i128 = at / span;
    proof {
        assert(i >= 0) by (nonlinear_arith)
            requires
                i == (at as int) / (span as int),
                at >= 0,
                span > 0,
        ;
    }
    if i >= side {
        (side - 1) as u32
    } else {
        i as u32
    }
}

/// Spreads the bits of a number out to the even places.
fn spread_bits(n: u32) -> (r: u64)
    ensures
        r == spread(n as nat),
    decreases n,
{
    if n == 0 {
        0
    } else {
        let rest: u64 = spread_bits(n / 2);
        proof {
            lemma2_to64();
            lemma2_to64_rest();
            lemma_spread_bound((n / 2) as nat, 31);
        }
        (n % 2) as u64 + 4 * rest
    }
}

proof fn lemma_spread_bound(n: nat, bits: nat)
    requires
        n < pow2(bits),
    ensures
        3 * spread(n) < pow2(2 * bits),
    decreases bits,
{
    lemma2_to64();
    if bits == 0 {
        assert(n == 0);
    } else {
        lemma_pow2_unfold(bits);
        lemma_spread_bound(n / 2, (bits - 1) as nat);
        lemma_pow2_unfold(2 * bits);
        lemma_pow2_unfold((2 * bits - 1) as nat);
        assert(spread(n) <= 1 + 4 * spread(n / 2));
    }
}

/// A cell's load, as its host measures it. It is the only input of the split and merge decision.
#[derive(Debug, Clone, Copy, PartialEq, Eq, Structural)]
pub struct CellLoad {
    pub players: u32,
    pub entities: u32,
    /// 99th percentile of the tick time, in microseconds.
    pub tick_p99_us: u32,
    /// Snapshot bytes sent per second.
    pub bandwidth_bps: u64,
    /// The beacon epoch of the measurement.
    pub epoch: u64,
}

/// When a cell splits or merges. Splitting high and merging low keeps the shape from flapping.
#[derive(Debug, Clone, Copy, PartialEq, Eq, Structural)]
pub struct ScalePolicy {
    pub split_players: u32,
    pub split_entities: u32,
    pub split_tick_us: u32,
    pub split_bandwidth_bps: u64,
    /// A cell merges only below this percentage of the split thresholds.
    pub merge_percent: u32,
    /// Consecutive agreeing epochs before a verdict is acted on.
    pub dwell_epochs: u8,
}

impl Default for ScalePolicy {
    fn default() -> (p: Self)
        ensures
            p == (ScalePolicy {
                split_players: 150,
                split_entities: 4_000,
                split_tick_us: 35_000,
                split_bandwidth_bps: 12_000_000,
                merge_percent: 30,
                dwell_epochs: 3,
            }),
    {
        ScalePolicy {
            split_players: 150,
            split_entities: 4_000,
            split_tick_us: 35_000,
            split_bandwidth_bps: 12_000_000,
            merge_percent: 30,
            dwell_epochs: 3,
        }
    }
}

/// What a cell should do about its load.
#[derive(Debug, Clone, Copy, PartialEq, Eq, Structural)]
pub enum Verdict {
    Hold,
    Split,
    /// This cell and its siblings merge into their parent.
    Merge,
}

impl CellLoad {
    /// Some measure has reached its split threshold.
    pub open spec fn hot(&self, policy: &ScalePolicy) -> bool {
        self.players >= policy.split_players || self.entities >= policy.split_entities
            || self.tick_p99_us >= policy.split_tick_us || self.bandwidth_bps
            >= policy.split_bandwidth_bps
    }

    /// Every measure is under the merge percentage of its split threshold.
    pub open spec fn cold(&self, policy: &ScalePolicy) -> bool {
        self.players * 100 < policy.split_players * policy.merge_percent && self.entities * 100
            < policy.split_entities * policy.merge_percent && self.tick_p99_us * 100
            < policy.split_tick_us * policy.merge_percent && self.bandwidth_bps * 100
            < policy.split_bandwidth_bps * policy.merge_percent
    }

    pub open spec fn verdict_for(&self, depth: u8, policy: &ScalePolicy) -> Verdict {
        if self.hot(policy) && depth < MAX_DEPTH {
            Verdict::Split
        } else if self.cold(policy) && depth > 0 {
            Verdict::Merge
        } else {
            Verdict::Hold
        }
    }

    /// The verdict for a leaf at a depth: split when hot, merge when cold, hold otherwise.
    pub fn verdict(&self, depth: u8, policy: &ScalePolicy) -> (v: Verdict)
        ensures
            v == self.verdict_for(depth, policy),
    {
        let hot: bool = self.players >= policy.split_players || self.entities
            >= policy.split_entities || self.tick_p99_us >= policy.split_tick_us
            || self.bandwidth_bps >= policy.split_bandwidth_bps;
        if hot && depth < MAX_DEPTH {
            return Verdict::Split;
        }
        let percent: u32 = policy.merge_percent;
        let cold: bool = under_percent(self.players as u64, policy.split_players as u64, percent)
            && under_percent(self.entities as u64, policy.split_entities as u64, percent)
            && under_percent(self.tick_p99_us as u64, policy.split_tick_us as u64, percent)
            && under_percent(self.bandwidth_bps, policy.split_bandwidth_bps, percent);
        if cold && depth > 0 {
            Verdict::Merge
        } else {
            Verdict::Hold
        }
    }
}

fn under_percent(value: u64, whole: u64, percent: u32) -> (r: bool)
    ensures
        r == (value * 100 < whole * percent),
{
    proof {
        assert(0 <= whole * percent <= 0xffff_ffff_ffff_ffff * 0xffff_ffff) by (nonlinear_arith)
            requires
                0 <= whole <= 0xffff_ffff_ffff_ffff,
                0 <= percent <= 0xffff_ffff,
        ;
    }
    (value as u128) * 100 < (whole as u128) * (percent as u128)
}

/// The leaves after a split: the leaf gives way to its children.
pub open spec fn split_shape(leaves: Set<CellId>, c: CellId) -> Set<CellId> {
    if leaves.contains(c) {
        leaves.remove(c).union(children_of(c).to_set())
    } else {
        leaves
    }
}

/// The leaves after a merge: the children give way to their parent.
pub open spec fn merge_shape(leaves: Set<CellId>, parent: CellId) -> Set<CellId> {
    leaves.difference(children_of(parent).to_set()).insert(parent)
}

/// The first leaf on the way from a cell up to the root; the root where there is none.
pub open spec fn leaf_from(leaves: Set<CellId>, c: CellId) -> CellId
    decreases c.depth,
{
    if leaves.contains(c) {
        c
    } else {
        match parent_of(c) {
            Some(p) => leaf_from(leaves, p),
            None => root_cell(),
        }
    }
}

/// The leaf that owns a point of the world.
pub open spec fn owner_of(leaves: Set<CellId>, wx: int, wy: int) -> CellId {
    leaf_from(leaves, cell_at(MAX_DEPTH, wx, wy))
}

/// The leaves around a point: its own, and those at the eight corners and edges of the view.
pub open spec fn interest_of(leaves: Set<CellId>, wx: int, wy: int, r: int) -> Set<CellId> {
    set![
        owner_of(leaves, wx, wy),
        owner_of(leaves, wx - r, wy - r),
        owner_of(leaves, wx, wy - r),
        owner_of(leaves, wx + r, wy - r),
        owner_of(leaves, wx - r, wy),
        owner_of(leaves, wx + r, wy),
        owner_of(leaves, wx - r, wy + r),
        owner_of(leaves, wx, wy + r),
        owner_of(leaves, wx + r, wy + r),
    ]
}

/// The shape of the galaxy as a node knows it: the set of leaf cells.
pub struct Galaxy {
    leaves: SortedSet<CellId>,
}

impl View for Galaxy {
    type V = Set<CellId>;

    closed spec fn view(&self) -> Set<CellId> {
        self.leaves@
    }
}

impl Galaxy {
    pub closed spec fn wf(&self) -> bool {
        self.leaves.wf()
    }

    /// The leaves in ascending order.
    pub closed spec fn leaf_order(&self) -> Seq<CellId> {
        self.leaves.order()
    }

    pub proof fn lemma_leaves(&self)
        requires
            self.wf(),
        ensures
            self.leaf_order().to_set() == self@,
    {
        self.leaves.lemma_order();
        assert(crate::order::views(self.leaves.order()) =~= self.leaves.order());
    }

    /// A new galaxy: the root is the one leaf.
    pub fn genesis() -> (g: Self)
        ensures
            g.wf(),
            g@ == set![root_cell()],
    {
        let mut leaves: SortedSet<CellId> = SortedSet::new();
        let _ = leaves.insert(CellId::root());
        let g = Galaxy { leaves };
        assert(g@ =~= set![root_cell()]);
        g
    }

    /// A galaxy without a single leaf, before anything has been heard of it.
    pub fn empty() -> (g: Self)
        ensures
            g.wf(),
            g@ == Set::<CellId>::empty(),
    {
        Galaxy { leaves: SortedSet::new() }
    }

    /// The leaves, in ascending order.
    pub fn leaves(&self) -> (r: &Vec<CellId>)
        requires
            self.wf(),
        ensures
            r@ == self.leaf_order(),
            crate::order::ascending(r@),
            r@.to_set() == self@,
            r@.no_duplicates(),
    {
        let items = self.leaves.items();
        assert(crate::order::views(items@) =~= items@);
        items
    }

    pub fn is_leaf(&self, c: &CellId) -> (r: bool)
        requires
            self.wf(),
        ensures
            r == self@.contains(*c),
    {
        self.leaves.contains(c)
    }

    /// Applies a committed split.
    pub fn split(&mut self, c: CellId)
        requires
            old(self).wf(),
            old(self)@.contains(c) ==> c.divisible(),
        ensures
            final(self).wf(),
            final(self)@ == split_shape(old(self)@, c),
    {
        if self.leaves.remove(&c) {
            let children = c.children();
            let ghost start = self.leaves@;
            let mut i: usize = 0;
            assert(start =~= start.union(children@.subrange(0, 0).to_set()));
            while i < children.len()
                invariant
                    i <= children@.len(),
                    self.leaves.wf(),
                    self.leaves@ == start.union(children@.subrange(0, i as int).to_set()),
                decreases children@.len() - i,
            {
                let child: CellId = children[i];
                let _ = self.leaves.insert(child);
                proof {
                    let seen = children@.subrange(0, i as int);
                    assert(children@.subrange(0, i + 1) =~= seen.push(child));
                    lemma_push_to_set(seen, child);
                    assert(start.union(seen.to_set()).insert(child) =~= start.union(
                        seen.push(child).to_set(),
                    ));
                }
                i = i + 1;
            }
            assert(children@.subrange(0, i as int) =~= children@);
        }
    }

    /// Applies a committed merge: the children collapse into their parent.
    pub fn merge(&mut self, parent: CellId)
        requires
            old(self).wf(),
            parent.divisible(),
        ensures
            final(self).wf(),
            final(self)@ == merge_shape(old(self)@, parent),
    {
        let children = parent.children();
        let ghost start = self.leaves@;
        let mut i: usize = 0;
        assert(start =~= start.difference(children@.subrange(0, 0).to_set()));
        while i < children.len()
            invariant
                i <= children@.len(),
                self.leaves.wf(),
                self.leaves@ == start.difference(children@.subrange(0, i as int).to_set()),
            decreases children@.len() - i,
        {
            let child: CellId = children[i];
            let _ = self.leaves.remove(&child);
            proof {
                let seen = children@.subrange(0, i as int);
                assert(children@.subrange(0, i + 1) =~= seen.push(child));
                lemma_push_to_set(seen, child);
                assert(start.difference(seen.to_set()).remove(child) =~= start.difference(
                    seen.push(child).to_set(),
                ));
            }
            i = i + 1;
        }
        assert(children@.subrange(0, i as int) =~= children@);
        let _ = self.leaves.insert(parent);
    }

    /// The leaf that owns a point: the finest leaf on the way up from the deepest cell at the
    /// point, so there is an answer even while a region is being reshaped.
    pub fn leaf_at(&self, wx: World, wy: World) -> (c: CellId)
        requires
            self.wf(),
        ensures
            c == owner_of(self@, wx as int, wy as int),
    {
        let mut c: CellId = CellId::at_depth_for(MAX_DEPTH, wx, wy);
        let ghost start = c;
        loop
            invariant
                self.wf(),
                leaf_from(self@, c) == leaf_from(self@, start),
                start == cell_at(MAX_DEPTH, wx as int, wy as int),
            decreases c.depth,
        {
            if self.leaves.contains(&c) {
                return c;
            }
            match c.parent() {
                Some(p) => {
                    c = p;
                },
                None => {
                    return CellId::root();
                },
            }
        }
    }

    /// What a player at a point subscribes to: the leaves that their view touches, whatever the
    /// depths of those leaves.
    pub fn interest(&self, wx: World, wy: World, view_radius: World) -> (r: SortedSet<CellId>)
        requires
            self.wf(),
            i64::MIN <= wx - view_radius <= i64::MAX,
            i64::MIN <= wx + view_radius <= i64::MAX,
            i64::MIN <= wy - view_radius <= i64::MAX,
            i64::MIN <= wy + view_radius <= i64::MAX,
        ensures
            r.wf(),
            r@ == interest_of(self@, wx as int, wy as int, view_radius as int),
    {
        let r: i64 = view_radius;
        let mut set: SortedSet<CellId> = SortedSet::new();
        let _ = set.insert(self.leaf_at(wx, wy));
        let _ = set.insert(self.leaf_at(wx - r, wy - r));
        let _ = set.insert(self.leaf_at(wx, wy - r));
        let _ = set.insert(self.leaf_at(wx + r, wy - r));
        let _ = set.insert(self.leaf_at(wx - r, wy));
        let _ = set.insert(self.leaf_at(wx + r, wy));
        let _ = set.insert(self.leaf_at(wx - r, wy + r));
        let _ = set.insert(self.leaf_at(wx, wy + r));
        let _ = set.insert(self.leaf_at(wx + r, wy + r));
        assert(set@ =~= interest_of(self@, wx as int, wy as int, view_radius as int));
        set
    }
}

proof fn lemma_push_to_set(s: Seq<CellId>, x: CellId)
    ensures
        s.push(x).to_set() =~= s.to_set().insert(x),
{
    broadcast use vstd::seq_lib::group_seq_properties;

}

/// A child's parent is the cell it came from, and the four children are distinct.
pub proof fn law_children_parent(c: CellId)
    requires
        c.divisible(),
    ensures
        forall|i: int|
            0 <= i < children_of(c).len() ==> parent_of(#[trigger] children_of(c)[i]) == Some(c),
        children_of(c).no_duplicates(),
        c.depth < MAX_DEPTH ==> children_of(c).len() == 4,
        c.valid() ==> forall|i: int|
            0 <= i < children_of(c).len() ==> (#[trigger] children_of(c)[i]).valid(),
{
    lemma_pow2_unfold((c.depth + 1) as nat);
}

/// Every cell but the root is one of its parent's children.
pub proof fn law_parent_children(c: CellId)
    requires
        c.depth <= MAX_DEPTH,
        parent_of(c) is Some,
    ensures
        children_of(parent_of(c)->0).contains(c),
        parent_of(c)->0.divisible(),
        c.valid() ==> (parent_of(c)->0).valid(),
{
    let p = parent_of(c)->0;
    let ch = children_of(p);
    let k = (c.x % 2) + 2 * (c.y % 2);
    assert(0 <= k < 4);
    assert(ch[k] == c);
    lemma_pow2_unfold(c.depth as nat);
}

/// A token is read back as the cell that it was made from.
pub proof fn law_token_roundtrip(c: CellId)
    requires
        c.depth <= MAX_DEPTH,
    ensures
        cell_of_token(token_of(c)) == Some(c),
{
    let (d, x, y) = (dec(c.depth as nat), dec(c.x as nat), dec(c.y as nat));
    crate::text::lemma_dec_spells(c.depth as nat);
    crate::text::lemma_dec_spells(c.x as nat);
    crate::text::lemma_dec_spells(c.y as nat);
    crate::text::lemma_digits_without(d, '.');
    crate::text::lemma_digits_without(x, '.');
    crate::text::lemma_digits_without(y, '.');
    crate::text::lemma_fields_single(d, '.');
    crate::text::lemma_fields_extend(d, x, '.');
    crate::text::lemma_fields_extend(d.push('.') + x, y, '.');
    assert(token_of(c) =~= (d.push('.') + x).push('.') + y);
    assert(fields(token_of(c), '.') =~= seq![d, x, y]);
    crate::text::lemma_dec_parses(c.depth as nat, 255);
    crate::text::lemma_dec_parses(c.x as nat, u32::MAX as nat);
    crate::text::lemma_dec_parses(c.y as nat, u32::MAX as nat);
}

proof fn lemma_interleave_injective(a: nat, b: nat, c: nat, d: nat)
    requires
        spread(a) + 2 * spread(b) == spread(c) + 2 * spread(d),
    ensures
        a == c,
        b == d,
    decreases a + b + c + d,
{
    if a + b + c + d > 0 {
        assert(spread(a) == a % 2 + 4 * spread(a / 2));
        assert(spread(b) == b % 2 + 4 * spread(b / 2));
        assert(spread(c) == c % 2 + 4 * spread(c / 2));
        assert(spread(d) == d % 2 + 4 * spread(d / 2));
        lemma_interleave_injective(a / 2, b / 2, c / 2, d / 2);
    }
}

/// Two cells with the same interleaved key are the same cell.
pub proof fn law_morton_injective(a: CellId, b: CellId)
    requires
        morton_of(a) == morton_of(b),
    ensures
        a == b,
{
    lemma_interleave_injective(a.x as nat, a.y as nat, b.x as nat, b.y as nat);
}

/// A point of the plane lies in the footprint of the cell that covers it.
pub proof fn law_point_in_its_cell(depth: u8, wx: int, wy: int, r: WorldRect)
    requires
        depth <= MAX_DEPTH,
        -ROOT_HALF <= wx < ROOT_HALF,
        -ROOT_HALF <= wy < ROOT_HALF,
        r.span == span_at(depth as int),
        r.x == cell_at(depth, wx, wy).x * span_at(depth as int) - ROOT_HALF,
        r.y == cell_at(depth, wx, wy).y * span_at(depth as int) - ROOT_HALF,
    ensures
        r.holds(wx, wy),
{
    lemma_spans(depth);
    lemma_axis_in_cell(depth, wx);
    lemma_axis_in_cell(depth, wy);
}

proof fn lemma_axis_in_cell(depth: u8, w: int)
    requires
        depth <= MAX_DEPTH,
        -ROOT_HALF <= w < ROOT_HALF,
    ensures
        0 <= index_at(depth as int, w) < pow2(depth as nat),
        index_at(depth as int, w) <= u32::MAX,
        index_at(depth as int, w) * span_at(depth as int) - ROOT_HALF <= w,
        w < index_at(depth as int, w) * span_at(depth as int) - ROOT_HALF + span_at(
            depth as int,
        ),
{
    lemma_spans(depth);
    let s = span_at(depth as int);
    let n = pow2(depth as nat) as int;
    let at = w + ROOT_HALF;
    let i = at / s;
    assert(0 <= i < n && i * s <= at < i * s + s) by (nonlinear_arith)
        requires
            i == at / s,
            0 <= at < s * n,
            s > 0,
            n > 0,
    ;
}

/// The ancestor of a cell at a depth above its own.
pub open spec fn ancestor(c: CellId, depth: int) -> CellId
    decreases c.depth,
{
    if c.depth <= depth {
        c
    } else {
        match parent_of(c) {
            Some(p) => ancestor(p, depth),
            None => c,
        }
    }
}

/// The cell `a` covers the cell `c`: it is `c` or one of its ancestors.
pub open spec fn covers(a: CellId, c: CellId) -> bool {
    a.depth <= c.depth && ancestor(c, a.depth as int) == a
}

/// Every deepest cell of the plane is covered by exactly one leaf.
pub open spec fn is_partition(leaves: Set<CellId>) -> bool {
    &&& forall|c: CellId| leaves.contains(c) ==> #[trigger] c.valid()
    &&& forall|f: CellId|
        f.depth == MAX_DEPTH && #[trigger] f.valid() ==> covered(leaves, f)
    &&& forall|f: CellId, a: CellId, b: CellId|
        f.depth == MAX_DEPTH && f.valid() && leaves.contains(a) && leaves.contains(b)
            && #[trigger] covers(a, f) && #[trigger] covers(b, f) ==> a == b
}

pub open spec fn covered(leaves: Set<CellId>, f: CellId) -> bool {
    exists|a: CellId| leaves.contains(a) && #[trigger] covers(a, f)
}

proof fn lemma_ancestor(c: CellId, depth: int)
    requires
        0 <= depth <= c.depth,
    ensures
        ancestor(c, depth).depth == depth,
        c.valid() ==> ancestor(c, depth).valid(),
        0 < depth ==> parent_of(ancestor(c, depth)) == Some(ancestor(c, depth - 1)),
    decreases c.depth,
{
    if c.depth > depth {
        let p = parent_of(c)->0;
        lemma_pow2_unfold(c.depth as nat);
        lemma_ancestor(p, depth);
    } else if depth > 0 {
        let p = parent_of(c)->0;
        assert(ancestor(c, depth - 1) == ancestor(p, depth - 1));
    }
}

/// A child covers a deepest cell only where its parent does, and where the parent does, so does
/// one of its children.
proof fn lemma_children_cover(c: CellId, f: CellId)
    requires
        c.valid(),
        c.depth < MAX_DEPTH,
        f.valid(),
        f.depth == MAX_DEPTH,
    ensures
        forall|i: int|
            0 <= i < 4 && covers(#[trigger] children_of(c)[i], f) ==> covers(c, f),
        covers(c, f) ==> children_of(c).contains(ancestor(f, c.depth + 1)) && covers(
            ancestor(f, c.depth + 1),
            f,
        ),
{
    lemma_pow2_strictly_increases(c.depth as nat, 31);
    lemma2_to64();
    law_children_parent(c);
    lemma_ancestor(f, c.depth + 1);
    let up = ancestor(f, c.depth + 1);
    assert forall|i: int| 0 <= i < 4 && covers(#[trigger] children_of(c)[i], f) implies covers(
        c,
        f,
    ) by {
        assert(children_of(c)[i] == up);
    }
    if covers(c, f) {
        law_parent_children(up);
        assert(parent_of(up) == Some(c));
    }
}

/// A new galaxy is a partition of the plane.
pub proof fn law_genesis_partitions()
    ensures
        is_partition(set![root_cell()]),
{
    lemma2_to64();
    let s = set![root_cell()];
    assert forall|f: CellId| f.depth == MAX_DEPTH && #[trigger] f.valid() implies covered(
        s,
        f,
    ) by {
        lemma_ancestor(f, 0);
        assert(covers(root_cell(), f));
    }
}

/// Splitting a leaf above the deepest level keeps the partition.
pub proof fn law_split_partitions(leaves: Set<CellId>, c: CellId)
    requires
        is_partition(leaves),
        c.depth < MAX_DEPTH,
    ensures
        is_partition(split_shape(leaves, c)),
{
    if leaves.contains(c) {
        let after = split_shape(leaves, c);
        assert(c.valid());
        lemma_pow2_strictly_increases(c.depth as nat, 31);
        lemma2_to64();
        law_children_parent(c);
        let ch = children_of(c);
        assert forall|f: CellId| f.depth == MAX_DEPTH && #[trigger] f.valid() implies covered(
            after,
            f,
        ) by {
            assert(covered(leaves, f));
            let a = choose|a: CellId| leaves.contains(a) && #[trigger] covers(a, f);
            lemma_children_cover(c, f);
            if a == c {
                let up = ancestor(f, c.depth + 1);
                assert(after.contains(up) && covers(up, f));
            } else {
                assert(after.contains(a) && covers(a, f));
            }
        }
        assert forall|f: CellId, a: CellId, b: CellId|
            f.depth == MAX_DEPTH && f.valid() && after.contains(a) && after.contains(b)
                && #[trigger] covers(a, f) && #[trigger] covers(b, f) implies a == b by {
            lemma_children_cover(c, f);
            if ch.contains(a) && ch.contains(b) {
                lemma_ancestor(f, c.depth + 1);
            } else if ch.contains(a) {
                assert(covers(c, f));
                assert(leaves.contains(b));
            } else if ch.contains(b) {
                assert(covers(c, f));
                assert(leaves.contains(a));
            }
        }
    }
}

/// Merging four leaves that are siblings keeps the partition.
pub proof fn law_merge_partitions(leaves: Set<CellId>, parent: CellId)
    requires
        is_partition(leaves),
        parent.valid(),
        parent.depth < MAX_DEPTH,
        children_of(parent).to_set().subset_of(leaves),
    ensures
        is_partition(merge_shape(leaves, parent)),
{
    let after = merge_shape(leaves, parent);
    let ch = children_of(parent);
    assert forall|f: CellId| f.depth == MAX_DEPTH && #[trigger] f.valid() implies covered(
        after,
        f,
    ) by {
        assert(covered(leaves, f));
        let a = choose|a: CellId| leaves.contains(a) && #[trigger] covers(a, f);
        lemma_children_cover(parent, f);
        if ch.contains(a) {
            assert(covers(parent, f));
            assert(after.contains(parent));
        } else {
            assert(after.contains(a) && covers(a, f));
        }
    }
    assert forall|f: CellId, a: CellId, b: CellId|
        f.depth == MAX_DEPTH && f.valid() && after.contains(a) && after.contains(b)
            && #[trigger] covers(a, f) && #[trigger] covers(b, f) implies a == b by {
        lemma_children_cover(parent, f);
        let up = ancestor(f, parent.depth + 1);
        if a == parent && b != parent {
            assert(leaves.contains(up) && covers(up, f));
            assert(b == up);
        } else if b == parent && a != parent {
            assert(leaves.contains(up) && covers(up, f));
            assert(a == up);
        }
    }
}

/// In a partition every point has exactly one owner: the leaf that the walk up finds.
pub proof fn law_one_owner(leaves: Set<CellId>, wx: int, wy: int)
    requires
        is_partition(leaves),
    ensures
        leaves.contains(owner_of(leaves, wx, wy)),
        covers(owner_of(leaves, wx, wy), cell_at(MAX_DEPTH, wx, wy)),
        forall|a: CellId|
            leaves.contains(a) && #[trigger] covers(a, cell_at(MAX_DEPTH, wx, wy)) ==> a
                == owner_of(leaves, wx, wy),
{
    lemma_spans(MAX_DEPTH);
    let f = cell_at(MAX_DEPTH, wx, wy);
    assert(f.valid());
    assert(covered(leaves, f));
    let a = choose|a: CellId| leaves.contains(a) && #[trigger] covers(a, f);
    lemma_walk_finds(leaves, f, f, a);
    assert(ancestor(f, MAX_DEPTH as int) == f);
}

proof fn lemma_walk_finds(leaves: Set<CellId>, f: CellId, c: CellId, a: CellId)
    requires
        covers(c, f),
        leaves.contains(a),
        a.depth <= c.depth,
        covers(a, f),
    ensures
        leaves.contains(leaf_from(leaves, c)),
        covers(leaf_from(leaves, c), f),
    decreases c.depth,
{
    if !leaves.contains(c) {
        lemma_ancestor(f, c.depth as int);
        if a.depth == c.depth {
            assert(a == c);
        }
        let p = parent_of(c)->0;
        assert(ancestor(f, c.depth - 1) == p);
        lemma_walk_finds(leaves, f, p, a);
    }
}

/// Merging undoes a split.
pub proof fn law_merge_undoes_split(leaves: Set<CellId>, c: CellId)
    requires
        leaves.contains(c),
        c.divisible(),
        c.depth < MAX_DEPTH,
        children_of(c).to_set().disjoint(leaves),
    ensures
        merge_shape(split_shape(leaves, c), c) == leaves,
{
    let ch = children_of(c).to_set();
    assert(merge_shape(split_shape(leaves, c), c) =~= leaves) by {
        assert forall|x: CellId| #![auto] ch.contains(x) && leaves.contains(x) implies false by {
        }
    }
}

/// Splitting undoes a merge.
pub proof fn law_split_undoes_merge(leaves: Set<CellId>, parent: CellId)
    requires
        children_of(parent).to_set().subset_of(leaves),
        parent.divisible(),
        !leaves.contains(parent),
    ensures
        split_shape(merge_shape(leaves, parent), parent) == leaves,
{
    assert(split_shape(merge_shape(leaves, parent), parent) =~= leaves);
}

/// A reshape that comes in twice changes nothing the second time.
pub proof fn law_reshape_twice_is_once(leaves: Set<CellId>, c: CellId)
    ensures
        split_shape(split_shape(leaves, c), c) == split_shape(leaves, c),
        merge_shape(merge_shape(leaves, c), c) == merge_shape(leaves, c),
{
    let kids = children_of(c);
    assert forall|k: CellId| kids.to_set().contains(k) implies k != c by {
        let i = choose|i: int| 0 <= i < kids.len() && kids[i] == k;
        assert(kids[i].depth == c.depth + 1);
    }
    assert(!split_shape(leaves, c).contains(c));
    assert(merge_shape(merge_shape(leaves, c), c) =~= merge_shape(leaves, c));
}

/// With a merge percentage of at most a hundred no load is both hot and cold, so a cell that has just
/// split for its load does not ask to merge for the same load.
pub proof fn law_hot_or_cold(load: CellLoad, policy: ScalePolicy)
    requires
        policy.merge_percent <= 100,
    ensures
        !(load.cold(&policy) && load.hot(&policy)),
{
    let p = policy.merge_percent as int;
    assert(policy.split_players * p <= policy.split_players * 100) by (nonlinear_arith)
        requires
            0 <= p <= 100,
    ;
    assert(policy.split_entities * p <= policy.split_entities * 100) by (nonlinear_arith)
        requires
            0 <= p <= 100,
    ;
    assert(policy.split_tick_us * p <= policy.split_tick_us * 100) by (nonlinear_arith)
        requires
            0 <= p <= 100,
    ;
    assert(policy.split_bandwidth_bps * p <= policy.split_bandwidth_bps * 100) by (nonlinear_arith)
        requires
            0 <= p <= 100,
    ;
}

proof fn lemma_side(depth: u8)
    requires
        depth <= MAX_DEPTH,
    ensures
        1u32 << depth == pow2(depth as nat),
{
    lemma2_to64();
    lemma_pow2_strictly_increases(depth as nat, 31);
    vstd::bits::lemma_u32_shl_is_mul(1, depth as u32);
}

/// The ring of a cell of the plane holds exactly the cells of its depth one step away, straight or
/// across, and so being a neighbour is mutual.
pub proof fn law_ring(c: CellId, d: CellId)
    requires
        c.valid(),
        d.valid(),
    ensures
        ring_of(c).contains(d) <==> {
            &&& d.depth == c.depth
            &&& d != c
            &&& -1 <= d.x - c.x <= 1
            &&& -1 <= d.y - c.y <= 1
        },
        ring_of(c).contains(d) <==> ring_of(d).contains(c),
{
    lemma_ring_members(c, d);
    lemma_ring_members(d, c);
}

proof fn lemma_ring_members(c: CellId, d: CellId)
    requires
        c.valid(),
        d.valid(),
    ensures
        ring_of(c).contains(d) <==> {
            &&& d.depth == c.depth
            &&& d != c
            &&& -1 <= d.x - c.x <= 1
            &&& -1 <= d.y - c.y <= 1
        },
{
    lemma_side(c.depth);
    lemma2_to64();
    lemma_pow2_strictly_increases(c.depth as nat, 31);
    let r = ring_of(c);
    assert forall|dx: int, dy: int| -1 <= dx <= 1 && -1 <= dy <= 1 implies (
    #[trigger] neighbour(c, dx, dy)).contains(d) == (d.depth == c.depth && d.x == c.x + dx && d.y
        == c.y + dy) by {
        let n = neighbour(c, dx, dy);
        if d.depth == c.depth && d.x == c.x + dx && d.y == c.y + dy {
            assert(n[0] == d);
        }
    }
    let n0 = neighbour(c, -1, -1);
    let n1 = n0 + neighbour(c, 0, -1);
    let n2 = n1 + neighbour(c, 1, -1);
    let n3 = n2 + neighbour(c, -1, 0);
    let n4 = n3 + neighbour(c, 1, 0);
    let n5 = n4 + neighbour(c, -1, 1);
    let n6 = n5 + neighbour(c, 0, 1);
    lemma_contains_add(n0, neighbour(c, 0, -1), d);
    lemma_contains_add(n1, neighbour(c, 1, -1), d);
    lemma_contains_add(n2, neighbour(c, -1, 0), d);
    lemma_contains_add(n3, neighbour(c, 1, 0), d);
    lemma_contains_add(n4, neighbour(c, -1, 1), d);
    lemma_contains_add(n5, neighbour(c, 0, 1), d);
    lemma_contains_add(n6, neighbour(c, 1, 1), d);
}

proof fn lemma_contains_add(a: Seq<CellId>, b: Seq<CellId>, x: CellId)
    ensures
        (a + b).contains(x) <==> a.contains(x) || b.contains(x),
{
    if a.contains(x) {
        let i = choose|i: int| 0 <= i < a.len() && a[i] == x;
        assert((a + b)[i] == x);
    }
    if b.contains(x) {
        let i = choose|i: int| 0 <= i < b.len() && b[i] == x;
        assert((a + b)[a.len() + i] == x);
    }
    if (a + b).contains(x) {
        let i = choose|i: int| 0 <= i < (a + b).len() && (a + b)[i] == x;
        if i < a.len() {
            assert(a[i] == x);
        } else {
            assert(b[i - a.len()] == x);
        }
    }
}

/// A cell of the plane can be divided.
pub proof fn lemma_valid_divides(c: CellId)
    requires
        c.valid(),
    ensures
        c.divisible(),
{
    if c.depth < MAX_DEPTH {
        lemma_pow2_strictly_increases(c.depth as nat, 31);
        lemma2_to64();
    }
}

/// The footprint of a cell lies on the plane, and its middle has coordinates.
pub proof fn lemma_rect_bounds(c: CellId)
    requires
        c.valid(),
    ensures
        0 < span_at(c.depth as int) <= ROOT_SPAN,
        0 <= c.x * span_at(c.depth as int) <= ROOT_SPAN - span_at(c.depth as int),
        0 <= c.y * span_at(c.depth as int) <= ROOT_SPAN - span_at(c.depth as int),
{
    lemma_spans(c.depth);
    let s = span_at(c.depth as int);
    let n = pow2(c.depth as nat) as int;
    assert(0 <= c.x * s <= n * s - s) by (nonlinear_arith)
        requires
            0 <= c.x <= n - 1,
            s > 0,
    ;
    assert(0 <= c.y * s <= n * s - s) by (nonlinear_arith)
        requires
            0 <= c.y <= n - 1,
            s > 0,
    ;
    assert(n * s == s * n) by (nonlinear_arith);
}

/// A load that has reached the split threshold of any one measure is split at every depth but the deepest,
/// whatever the other measures are; and a load that is below all four thresholds is never split.
pub proof fn law_any_measure_splits(load: CellLoad, depth: u8, policy: ScalePolicy)
    ensures
        load.players >= policy.split_players && depth < 30 ==> load.verdict_for(depth, &policy)
            == Verdict::Split,
        load.entities >= policy.split_entities && depth < 30 ==> load.verdict_for(depth, &policy)
            == Verdict::Split,
        load.tick_p99_us >= policy.split_tick_us && depth < 30 ==> load.verdict_for(depth, &policy)
            == Verdict::Split,
        load.bandwidth_bps >= policy.split_bandwidth_bps && depth < 30 ==> load.verdict_for(
            depth,
            &policy,
        ) == Verdict::Split,
        load.players < policy.split_players && load.entities < policy.split_entities
            && load.tick_p99_us < policy.split_tick_us && load.bandwidth_bps
            < policy.split_bandwidth_bps ==> load.verdict_for(depth, &policy) != Verdict::Split,
        depth >= 30 ==> load.verdict_for(depth, &policy) != Verdict::Split,
        depth == 0 ==> load.verdict_for(depth, &policy) != Verdict::Merge,
{
}

/// A leaf asks to merge only while every single measure is under its share of the threshold; and an idle
/// leaf of a policy that has thresholds and a share asks for it.
pub proof fn law_one_busy_measure_forbids_a_merge(load: CellLoad, depth: u8, policy: ScalePolicy)
    ensures
        load.players * 100 >= policy.split_players * policy.merge_percent ==> load.verdict_for(
            depth,
            &policy,
        ) != Verdict::Merge,
        load.entities * 100 >= policy.split_entities * policy.merge_percent ==> load.verdict_for(
            depth,
            &policy,
        ) != Verdict::Merge,
        load.tick_p99_us * 100 >= policy.split_tick_us * policy.merge_percent
            ==> load.verdict_for(depth, &policy) != Verdict::Merge,
        load.bandwidth_bps * 100 >= policy.split_bandwidth_bps * policy.merge_percent
            ==> load.verdict_for(depth, &policy) != Verdict::Merge,
        depth > 0 && load.players == 0 && load.entities == 0 && load.tick_p99_us == 0
            && load.bandwidth_bps == 0 && policy.split_players > 0 && policy.split_entities > 0
            && policy.split_tick_us > 0 && policy.split_bandwidth_bps > 0 && policy.merge_percent
            > 0 ==> load.verdict_for(depth, &policy) == Verdict::Merge,
{
    assert(policy.split_players > 0 && policy.merge_percent > 0 ==> policy.split_players
        * policy.merge_percent > 0) by (nonlinear_arith);
    assert(policy.split_entities > 0 && policy.merge_percent > 0 ==> policy.split_entities
        * policy.merge_percent > 0) by (nonlinear_arith);
    assert(policy.split_tick_us > 0 && policy.merge_percent > 0 ==> policy.split_tick_us
        * policy.merge_percent > 0) by (nonlinear_arith);
    assert(policy.split_bandwidth_bps > 0 && policy.merge_percent > 0 ==> policy.split_bandwidth_bps
        * policy.merge_percent > 0) by (nonlinear_arith);
}

/// More load never calms a cell: where every measure is at least as high, what was to be split still is,
/// and what is to be merged was to be merged, or was split, before.
pub proof fn law_more_load_never_calms(a: CellLoad, b: CellLoad, depth: u8, policy: ScalePolicy)
    requires
        a.players <= b.players,
        a.entities <= b.entities,
        a.tick_p99_us <= b.tick_p99_us,
        a.bandwidth_bps <= b.bandwidth_bps,
    ensures
        a.verdict_for(depth, &policy) == Verdict::Split ==> b.verdict_for(depth, &policy)
            == Verdict::Split,
        b.verdict_for(depth, &policy) == Verdict::Merge ==> a.verdict_for(depth, &policy)
            == Verdict::Merge,
{
}

/// What the deepest cell of a point lies in at another depth is the cell of the point at that depth.
proof fn lemma_index_halves(depth: u8, w: int)
    requires
        0 < depth <= MAX_DEPTH,
    ensures
        index_at(depth as int, w) / 2 == index_at(depth - 1, w),
        0 <= index_at(depth as int, w) < pow2(depth as nat),
{
    lemma_spans(depth);
    lemma_spans((depth - 1) as u8);
    lemma_pow2_unfold(depth as nat);
    lemma_pow2_unfold((50 - depth + 1) as nat);
    let s = span_at(depth as int);
    let v = w + ROOT_HALF;
    assert(span_at(depth - 1) == 2 * s);
    if v < 0 {
        assert(v / s < 0) by (nonlinear_arith)
            requires
                v < 0,
                s > 0,
        ;
        assert(v / (2 * s) < 0) by (nonlinear_arith)
            requires
                v < 0,
                s > 0,
        ;
    } else {
        vstd::arithmetic::div_mod::lemma_div_denominator(v, s, 2);
        assert(s * 2 == 2 * s);
    }
}

proof fn lemma_cell_at_ancestor(depth: u8, deep: u8, wx: int, wy: int)
    requires
        depth <= deep <= MAX_DEPTH,
    ensures
        ancestor(cell_at(deep, wx, wy), depth as int) == cell_at(depth, wx, wy),
    decreases deep,
{
    lemma_spans(deep);
    if depth < deep {
        lemma_index_halves(deep, wx);
        lemma_index_halves(deep, wy);
        lemma_spans((deep - 1) as u8);
        lemma_cell_at_ancestor(depth, (deep - 1) as u8, wx, wy);
        assert(parent_of(cell_at(deep, wx, wy)) == Some(cell_at((deep - 1) as u8, wx, wy)));
    }
}

/// The owner of a point of the plane is the leaf whose square the point lies in: its west and north edges
/// are at `x` and `y` times its side, counted from the corner of the plane, and belong to it.
pub proof fn law_owner_holds_the_point(leaves: Set<CellId>, wx: int, wy: int, side: int)
    requires
        is_partition(leaves),
        -562_949_953_421_312 <= wx < 562_949_953_421_312,
        -562_949_953_421_312 <= wy < 562_949_953_421_312,
        side * pow2(owner_of(leaves, wx, wy).depth as nat) == 1_125_899_906_842_624,
    ensures
        ({
            let c = owner_of(leaves, wx, wy);
            &&& leaves.contains(c)
            &&& c.x * side <= wx + 562_949_953_421_312 < (c.x + 1) * side
            &&& c.y * side <= wy + 562_949_953_421_312 < (c.y + 1) * side
        }),
{
    law_one_owner(leaves, wx, wy);
    let c = owner_of(leaves, wx, wy);
    lemma_cell_at_ancestor(c.depth, MAX_DEPTH, wx, wy);
    lemma_spans(c.depth);
    lemma_axis_in_cell(c.depth, wx);
    lemma_axis_in_cell(c.depth, wy);
    let s = span_at(c.depth as int);
    let n = pow2(c.depth as nat) as int;
    assert(side == s) by (nonlinear_arith)
        requires
            side * n == s * n,
            n > 0,
    ;
    assert((c.x + 1) * s == c.x * s + s) by (nonlinear_arith);
    assert((c.y + 1) * s == c.y * s + s) by (nonlinear_arith);
}

/// Points that are no further apart than the side of a cell lie in the same column or in columns side by
/// side, and a point between two lies in a column between theirs.
proof fn lemma_index_steps(depth: u8, a: int, b: int)
    requires
        depth <= MAX_DEPTH,
        a <= b <= a + span_at(depth as int),
    ensures
        index_at(depth as int, a) <= index_at(depth as int, b) <= index_at(depth as int, a) + 1,
{
    lemma_spans(depth);
    let s = span_at(depth as int);
    let (u, v) = (a + ROOT_HALF, b + ROOT_HALF);
    vstd::arithmetic::div_mod::lemma_div_is_ordered(u, v, s);
    vstd::arithmetic::div_mod::lemma_div_is_ordered(v, u + s, s);
    vstd::arithmetic::div_mod::lemma_div_plus_one(u, s);
    assert((s + u) / s == u / s + 1);
}

/// A column that a point of an interval lies in holds the middle of the interval or one of its ends, where
/// no column is narrower than half of the interval.
proof fn lemma_sample(depth: u8, w: int, r: int, p: int) -> (i: int)
    requires
        depth <= MAX_DEPTH,
        0 <= r <= span_at(depth as int),
        w - r <= p <= w + r,
    ensures
        -1 <= i <= 1,
        index_at(depth as int, w + i * r) == index_at(depth as int, p),
{
    lemma_spans(depth);
    let at = index_at(depth as int, p);
    if p <= w {
        lemma_index_steps(depth, w - r, p);
        lemma_index_steps(depth, p, w);
        lemma_index_steps(depth, w - r, w);
        if at == index_at(depth as int, w) {
            0
        } else {
            assert(w + (-1) * r == w - r);
            -1
        }
    } else {
        lemma_index_steps(depth, w, p);
        lemma_index_steps(depth, p, w + r);
        lemma_index_steps(depth, w, w + r);
        if at == index_at(depth as int, w) {
            0
        } else {
            assert(w + 1 * r == w + r);
            1
        }
    }
}

/// A player subscribes to the owners of the nine points of a view, and to nobody else: of its middle, of its
/// corners and of the middles of its edges.
pub proof fn law_interest_is_the_nine_owners(leaves: Set<CellId>, wx: int, wy: int, r: int)
    ensures
        forall|i: int, j: int|
            -1 <= i <= 1 && -1 <= j <= 1 ==> interest_of(leaves, wx, wy, r).contains(
                #[trigger] owner_of(leaves, wx + i * r, wy + j * r),
            ),
        forall|c: CellId| #[trigger]
            interest_of(leaves, wx, wy, r).contains(c) ==> exists|i: int, j: int|
                -1 <= i <= 1 && -1 <= j <= 1 && c == #[trigger] owner_of(
                    leaves,
                    wx + i * r,
                    wy + j * r,
                ),
{
    let n = interest_of(leaves, wx, wy, r);
    assert forall|i: int, j: int| -1 <= i <= 1 && -1 <= j <= 1 implies n.contains(
        #[trigger] owner_of(leaves, wx + i * r, wy + j * r),
    ) by {
        assert(i == -1 || i == 0 || i == 1);
        assert(j == -1 || j == 0 || j == 1);
        assert((-1) * r == -r && 0 * r == 0 && 1 * r == r);
    }
    assert((-1) * r == -r && 0 * r == 0 && 1 * r == r);
    assert forall|c: CellId| #[trigger] n.contains(c) implies exists|i: int, j: int|
        -1 <= i <= 1 && -1 <= j <= 1 && c == #[trigger] owner_of(
            leaves,
            wx + i * r,
            wy + j * r,
        ) by {
        assert(owner_of(leaves, wx, wy) == owner_of(leaves, wx + 0 * r, wy + 0 * r));
        assert(owner_of(leaves, wx - r, wy - r) == owner_of(leaves, wx + (-1) * r, wy + (-1) * r));
        assert(owner_of(leaves, wx, wy - r) == owner_of(leaves, wx + 0 * r, wy + (-1) * r));
        assert(owner_of(leaves, wx + r, wy - r) == owner_of(leaves, wx + 1 * r, wy + (-1) * r));
        assert(owner_of(leaves, wx - r, wy) == owner_of(leaves, wx + (-1) * r, wy + 0 * r));
        assert(owner_of(leaves, wx + r, wy) == owner_of(leaves, wx + 1 * r, wy + 0 * r));
        assert(owner_of(leaves, wx - r, wy + r) == owner_of(leaves, wx + (-1) * r, wy + 1 * r));
        assert(owner_of(leaves, wx, wy + r) == owner_of(leaves, wx + 0 * r, wy + 1 * r));
        assert(owner_of(leaves, wx + r, wy + r) == owner_of(leaves, wx + 1 * r, wy + 1 * r));
    }
}

/// Where no cell is smaller than the view's radius, a player subscribes to the owner of every point that the
/// view holds: no neighbour is missed, whichever side it lies on.
pub proof fn law_nothing_in_view_is_missed(
    leaves: Set<CellId>,
    wx: int,
    wy: int,
    r: int,
    px: int,
    py: int,
)
    requires
        is_partition(leaves),
        0 <= r,
        forall|c: CellId| #[trigger] leaves.contains(c) ==> r <= span_at(c.depth as int),
        -r <= px - wx <= r,
        -r <= py - wy <= r,
    ensures
        interest_of(leaves, wx, wy, r).contains(owner_of(leaves, px, py)),
{
    law_one_owner(leaves, px, py);
    let a = owner_of(leaves, px, py);
    lemma_cell_at_ancestor(a.depth, MAX_DEPTH, px, py);
    let i = lemma_sample(a.depth, wx, r, px);
    let j = lemma_sample(a.depth, wy, r, py);
    let (sx, sy) = (wx + i * r, wy + j * r);
    lemma_cell_at_ancestor(a.depth, MAX_DEPTH, sx, sy);
    law_one_owner(leaves, sx, sy);
    assert(covers(a, cell_at(MAX_DEPTH, sx, sy)));
    law_interest_is_the_nine_owners(leaves, wx, wy, r);
}

/// The keys of the four children of a cell follow one another, row by row, where that of the cell is four
/// times as coarse: walking the keys walks the plane along the curve.
#[verifier::rlimit(40)]
pub proof fn law_morton_of_children(c: CellId, i: int, j: int)
    requires
        c.depth < 30,
        c.x < 0x8000_0000,
        c.y < 0x8000_0000,
        0 <= i <= 1,
        0 <= j <= 1,
    ensures
        morton_of(child_of(c, i, j)) / 256 == 4 * (morton_of(c) / 256) + i + 2 * j,
        morton_of(child_of(c, i, j)) % 256 == c.depth + 1,
        morton_of(root_cell()) == 0,
{
    let k = child_of(c, i, j);
    assert(k.x == 2 * c.x + i && k.y == 2 * c.y + j && k.depth == c.depth + 1);
    assert(spread(k.x as nat) == i + 4 * spread(c.x as nat)) by {
        assert((2 * c.x + i) % 2 == i && (2 * c.x + i) / 2 == c.x as int);
    }
    assert(spread(k.y as nat) == j + 4 * spread(c.y as nat)) by {
        assert((2 * c.y + j) % 2 == j && (2 * c.y + j) / 2 == c.y as int);
    }
}

/// The children of a cell are its four quarters: each half as wide, and together they hold exactly what the
/// cell holds.
pub proof fn law_children_quarter_the_cell(c: CellId, x: int, y: int)
    requires
        c.depth < 30,
        c.x < 0x8000_0000,
        c.y < 0x8000_0000,
    ensures
        (c.x == x / 2 && c.y == y / 2 && 0 <= x && 0 <= y) <==> exists|k: CellId|
            #[trigger] children_of(c).contains(k) && k.depth == c.depth + 1 && k.x == x && k.y == y,
        forall|k: CellId| #[trigger] children_of(c).contains(k) ==> k.depth == c.depth + 1,
{
    let kids = children_of(c);
    assert(kids[0] == child_of(c, 0, 0));
    assert(kids[1] == child_of(c, 1, 0));
    assert(kids[2] == child_of(c, 0, 1));
    assert(kids[3] == child_of(c, 1, 1));
    if c.x == x / 2 && c.y == y / 2 && 0 <= x && 0 <= y {
        let (i, j) = (x % 2, y % 2);
        let k = child_of(c, i, j);
        assert(k.x == x && k.y == y);
        assert(kids[i + 2 * j] == k);
        assert(kids.contains(k));
    }
    assert forall|k: CellId| #[trigger] kids.contains(k) implies k.depth == c.depth + 1 && k.x / 2
        == c.x && k.y / 2 == c.y by {
        let n = choose|n: int| 0 <= n < kids.len() && kids[n] == k;
    }
}

/// The cells around a cell of the plane are cells of the plane.
pub proof fn lemma_ring_valid(c: CellId, d: CellId)
    requires
        c.valid(),
        ring_of(c).contains(d),
    ensures
        d.valid(),
{
    lemma_side(c.depth);
    let n0 = neighbour(c, -1, -1);
    let n1 = n0 + neighbour(c, 0, -1);
    let n2 = n1 + neighbour(c, 1, -1);
    let n3 = n2 + neighbour(c, -1, 0);
    let n4 = n3 + neighbour(c, 1, 0);
    let n5 = n4 + neighbour(c, -1, 1);
    let n6 = n5 + neighbour(c, 0, 1);
    lemma_contains_add(n0, neighbour(c, 0, -1), d);
    lemma_contains_add(n1, neighbour(c, 1, -1), d);
    lemma_contains_add(n2, neighbour(c, -1, 0), d);
    lemma_contains_add(n3, neighbour(c, 1, 0), d);
    lemma_contains_add(n4, neighbour(c, -1, 1), d);
    lemma_contains_add(n5, neighbour(c, 0, 1), d);
    lemma_contains_add(n6, neighbour(c, 1, 1), d);
    assert forall|dx: int, dy: int| (#[trigger] neighbour(c, dx, dy)).contains(d) implies d.valid() by {
        let n = neighbour(c, dx, dy);
        assert(n[0] == d);
    }
}

/// The side of a cell is the side of the plane, halved as often as the cell is deep.
pub proof fn lemma_span_is_a_share(depth: u8, side: int)
    requires
        depth <= MAX_DEPTH,
        side * pow2(depth as nat) == 1_125_899_906_842_624,
    ensures
        span_at(depth as int) == side,
{
    lemma_spans(depth);
    let s = span_at(depth as int);
    let n = pow2(depth as nat) as int;
    assert(side == s) by (nonlinear_arith)
        requires
            side * n == s * n,
            n > 0,
    ;
}

} // verus!
