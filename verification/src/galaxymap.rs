//! The live galaxy map: shape, heat and hosts of the cells, folded from the gossip into one picture.
use std::collections::VecDeque;

use vstd::prelude::*;
use vstd::string::*;
use vstd::utf8::*;

use crate::galaxy::{
    children_of, merge_shape, morton_of, root_cell, span_at, split_shape, token_of, CellId, CellLoad, Galaxy,
    WorldRect, ROOT_HALF,
};
use crate::galaxywire::{LoadFrame, ShapeOp};
use crate::order::{SortedMap, SortedSet};
use crate::sort::{sort_stably, stably_sorted, Ranked};
use crate::text::{dec, push_dec};

verus! {

/// How many reshapes the map remembers.
pub const EVENT_CAP: usize = 64;

/// A cell of the map: where it is, who hosts it, how busy it is.
#[derive(Debug)]
pub struct MapCell {
    pub cell: CellId,
    pub rect: WorldRect,
    pub host: Option<String>,
    pub load: Option<CellLoad>,
}

/// How near a measure is to one and a half times its limit, in thousandths, not held to a thousand.
pub open spec fn strain(value: int, limit: int) -> int {
    (value * 2000) / (3 * (if limit < 1 {
        1
    } else {
        limit
    }))
}

pub open spec fn larger(a: int, b: int) -> int {
    if a < b {
        b
    } else {
        a
    }
}

/// The heat of a load in thousandths: the strain of whichever of players, tick time and bandwidth is
/// nearest to forcing a split, up to a thousand.
pub open spec fn heat_of(
    load: Option<CellLoad>,
    policy_players: u32,
    policy_tick_us: u32,
    policy_bps: u64,
) -> int {
    match load {
        Some(l) => {
            let m = larger(
                larger(
                    strain(l.players as int, policy_players as int),
                    strain(l.tick_p99_us as int, policy_tick_us as int),
                ),
                strain(l.bandwidth_bps as int, policy_bps as int),
            );
            if m > 1000 {
                1000
            } else {
                m
            }
        },
        None => 0,
    }
}

fn strain_of(value: u64, limit: u64) -> (r: u128)
    ensures
        r == strain(value as int, limit as int),
{
    let l: u128 = if limit < 1 {
        1
    } else {
        limit as u128
    };
    (value as u128 * 2000) / (3 * l)
}

impl MapCell {
    /// The heat of the cell, 0 to 1000.
    pub fn heat(&self, policy_players: u32, policy_tick_us: u32, policy_bps: u64) -> (permille: u32)
        ensures
            permille == heat_of(self.load, policy_players, policy_tick_us, policy_bps),
            permille <= 1000,
    {
        match &self.load {
            Some(l) => {
                let p: u128 = strain_of(l.players as u64, policy_players as u64);
                let t: u128 = strain_of(l.tick_p99_us as u64, policy_tick_us as u64);
                let b: u128 = strain_of(l.bandwidth_bps, policy_bps);
                let pt: u128 = if p < t {
                    t
                } else {
                    p
                };
                let m: u128 = if pt < b {
                    b
                } else {
                    pt
                };
                if m > 1000 {
                    1000
                } else {
                    m as u32
                }
            },
            None => 0,
        }
    }
}

impl Ranked for MapCell {
    open spec fn before(&self, other: &Self) -> bool {
        morton_of(self.cell) < morton_of(other.cell)
    }

    fn goes_before(&self, other: &Self) -> (r: bool) {
        self.cell.morton() < other.cell.morton()
    }

    proof fn before_asymmetric(a: &Self, b: &Self) {
    }

    proof fn before_negatively_transitive(a: &Self, b: &Self, c: &Self) {
    }
}

/// A recent reshape.
#[derive(Debug)]
pub struct MapEvent {
    pub epoch: u64,
    pub kind: MapEventKind,
}

#[derive(Debug, PartialEq)]
pub enum MapEventKind {
    Split { cell: CellId },
    Merge { parent: CellId },
    Migrate { cell: CellId, to: String },
    BurstLit { region: String, nodes: usize },
}

/// The trail once an event is added: the oldest one goes when the trail is full.
pub open spec fn trail_after(trail: Seq<MapEvent>, cap: int, e: MapEvent) -> Seq<MapEvent> {
    if trail.len() == cap && trail.len() > 0 {
        trail.subrange(1, trail.len() as int).push(e)
    } else {
        trail.push(e)
    }
}

/// One-glance numbers of the galaxy.
#[derive(Debug, Clone, Copy, PartialEq, Eq, Structural)]
pub struct MapSummary {
    pub leaf_cells: usize,
    pub players: u32,
    pub host_nodes: usize,
    pub max_depth: u8,
}

/// The map.
pub struct MapModel {
    pub galaxy: Galaxy,
    pub hosts: SortedMap<CellId, String>,
    pub loads: SortedMap<CellId, CellLoad>,
    pub events: VecDeque<MapEvent>,
    pub event_cap: usize,
}

/// The hosts once the four children of a split are homed.
pub open spec fn hosts_after_split(
    hosts: Map<CellId, String>,
    cell: CellId,
    children: Seq<CellId>,
    place_on: Seq<String>,
) -> Map<CellId, String> {
    hosts.remove(cell).insert(children[0], place_on[0]).insert(children[1], place_on[1]).insert(
        children[2],
        place_on[2],
    ).insert(children[3], place_on[3])
}

/// The cell of the map for a leaf.
pub open spec fn is_map_cell(
    m: MapCell,
    c: CellId,
    hosts: Map<CellId, String>,
    loads: Map<CellId, CellLoad>,
) -> bool {
    &&& m.cell == c
    &&& m.rect.span == span_at(c.depth as int)
    &&& m.rect.x == c.x * span_at(c.depth as int) - ROOT_HALF
    &&& m.rect.y == c.y * span_at(c.depth as int) - ROOT_HALF
    &&& m.host == (if hosts.contains_key(c) {
        Some(hosts[c])
    } else {
        None
    })
    &&& m.load == (if loads.contains_key(c) {
        Some(loads[c])
    } else {
        None
    })
}

/// The players of the first `n` leaves.
pub open spec fn players_in(leaves: Seq<CellId>, loads: Map<CellId, CellLoad>, n: nat) -> nat
    decreases n,
{
    if n == 0 {
        0
    } else {
        players_in(leaves, loads, (n - 1) as nat) + (if loads.contains_key(leaves[n - 1]) {
            loads[leaves[n - 1]].players as nat
        } else {
            0
        })
    }
}

proof fn lemma_players_grow(leaves: Seq<CellId>, loads: Map<CellId, CellLoad>, n: nat, m: nat)
    requires
        n <= m,
    ensures
        players_in(leaves, loads, n) <= players_in(leaves, loads, m),
    decreases m,
{
    if n < m {
        lemma_players_grow(leaves, loads, n, (m - 1) as nat);
    }
}

/// The hosts of the first `n` leaves.
pub open spec fn hosts_in(leaves: Seq<CellId>, hosts: Map<CellId, String>, n: nat) -> Set<Seq<char>>
    decreases n,
{
    if n == 0 {
        Set::empty()
    } else {
        let rest = hosts_in(leaves, hosts, (n - 1) as nat);
        if hosts.contains_key(leaves[n - 1]) {
            rest.insert(hosts[leaves[n - 1]]@)
        } else {
            rest
        }
    }
}

/// The depth of the deepest of the first `n` leaves.
pub open spec fn depth_in(leaves: Seq<CellId>, n: nat) -> int
    decreases n,
{
    if n == 0 {
        0
    } else {
        larger(depth_in(leaves, (n - 1) as nat), leaves[n - 1].depth as int)
    }
}

/// What a committed reshape makes of a map: the shape changes, the hosts follow, and the event is
/// noted.
pub open spec fn shaped(before: MapModel, after: MapModel, epoch: u64, op: ShapeOp) -> bool {
    &&& after.event_cap == before.event_cap
    &&& match op {
        ShapeOp::Split { cell, children, place_on, from_snapshot } => {
            &&& after.galaxy@ == split_shape(before.galaxy@, cell)
            &&& after.loads@ == before.loads@.remove(cell)
            &&& after.hosts@ == hosts_after_split(before.hosts@, cell, children@, place_on@)
            &&& after.events@ == trail_after(
                before.events@,
                before.event_cap as int,
                MapEvent { epoch, kind: MapEventKind::Split { cell } },
            )
        },
        ShapeOp::Merge { parent, from_snapshots, place_on } => {
            let kids = children_of(parent).to_set();
            &&& after.galaxy@ == merge_shape(before.galaxy@, parent)
            &&& after.loads@ == before.loads@.remove_keys(kids)
            &&& after.hosts@ == before.hosts@.remove_keys(kids).insert(parent, place_on)
            &&& after.events@ == trail_after(
                before.events@,
                before.event_cap as int,
                MapEvent { epoch, kind: MapEventKind::Merge { parent } },
            )
        },
        ShapeOp::Place { cell, node, from_snapshot } => {
            &&& after.galaxy == before.galaxy
            &&& after.loads == before.loads
            &&& after.hosts@ == before.hosts@.insert(cell, node)
            &&& after.events == before.events
        },
        ShapeOp::Migrate { cell, from, to, snapshot } => {
            &&& after.galaxy == before.galaxy
            &&& after.loads == before.loads
            &&& after.hosts@ == before.hosts@.insert(cell, to)
            &&& after.events@ == trail_after(
                before.events@,
                before.event_cap as int,
                MapEvent { epoch, kind: MapEventKind::Migrate { cell, to } },
            )
        },
    }
}

impl MapModel {
    pub open spec fn wf(&self) -> bool {
        self.galaxy.wf() && self.hosts.wf() && self.loads.wf()
    }

    /// A map of a new galaxy.
    pub fn new() -> (m: Self)
        ensures
            m.wf(),
            m.galaxy@ == set![root_cell()],
            m.hosts@ == Map::<CellId, String>::empty(),
            m.loads@ == Map::<CellId, CellLoad>::empty(),
            m.events@ == Seq::<MapEvent>::empty(),
            m.event_cap == EVENT_CAP,
    {
        MapModel {
            galaxy: Galaxy::genesis(),
            hosts: SortedMap::new(),
            loads: SortedMap::new(),
            events: VecDeque::new(),
            event_cap: EVENT_CAP,
        }
    }

    /// Takes a load frame in.
    pub fn on_load(&mut self, f: LoadFrame)
        requires
            old(self).wf(),
        ensures
            final(self).wf(),
            final(self).hosts@ == old(self).hosts@.insert(f.cell, f.host),
            final(self).loads@ == old(self).loads@.insert(f.cell, f.load),
            final(self).galaxy == old(self).galaxy,
            final(self).events == old(self).events,
            final(self).event_cap == old(self).event_cap,
    {
        let cell: CellId = f.cell;
        let load: CellLoad = f.load;
        let _ = self.hosts.insert(cell, f.host);
        let _ = self.loads.insert(cell, load);
    }

    /// Applies a committed reshape: the shape changes, the hosts follow, and the event is noted.
    pub fn on_shape(&mut self, epoch: u64, op: &ShapeOp)
        requires
            old(self).wf(),
            match *op {
                ShapeOp::Split { cell, children, place_on, from_snapshot } => cell.divisible(),
                ShapeOp::Merge { parent, from_snapshots, place_on } => parent.divisible(),
                _ => true,
            },
        ensures
            final(self).wf(),
            shaped(*old(self), *final(self), epoch, *op),
    {
        match op {
            ShapeOp::Split { cell, children, place_on, from_snapshot } => {
                self.galaxy.split(*cell);
                let _ = self.loads.remove(cell);
                let _ = self.hosts.remove(cell);
                let _ = self.hosts.insert(children[0], place_on[0].clone());
                let _ = self.hosts.insert(children[1], place_on[1].clone());
                let _ = self.hosts.insert(children[2], place_on[2].clone());
                let _ = self.hosts.insert(children[3], place_on[3].clone());
                self.push(epoch, MapEventKind::Split { cell: *cell });
            },
            ShapeOp::Merge { parent, from_snapshots, place_on } => {
                self.galaxy.merge(*parent);
                self.forget_children(*parent);
                let _ = self.hosts.insert(*parent, place_on.clone());
                self.push(epoch, MapEventKind::Merge { parent: *parent });
            },
            ShapeOp::Place { cell, node, from_snapshot } => {
                let _ = self.hosts.insert(*cell, node.clone());
            },
            ShapeOp::Migrate { cell, from, to, snapshot } => {
                let _ = self.hosts.insert(*cell, to.clone());
                self.push(epoch, MapEventKind::Migrate { cell: *cell, to: to.clone() });
            },
        }
    }

    fn forget_children(&mut self, parent: CellId)
        requires
            old(self).wf(),
            parent.divisible(),
        ensures
            final(self).wf(),
            final(self).galaxy == old(self).galaxy,
            final(self).events == old(self).events,
            final(self).event_cap == old(self).event_cap,
            final(self).loads@ == old(self).loads@.remove_keys(children_of(parent).to_set()),
            final(self).hosts@ == old(self).hosts@.remove_keys(children_of(parent).to_set()),
    {
        let kids = parent.children();
        let ghost loads0 = self.loads@;
        let ghost hosts0 = self.hosts@;
        let mut i: usize = 0;
        assert(loads0 =~= loads0.remove_keys(kids@.subrange(0, 0).to_set()));
        assert(hosts0 =~= hosts0.remove_keys(kids@.subrange(0, 0).to_set()));
        while i < kids.len()
            invariant
                i <= kids@.len(),
                self.wf(),
                self.galaxy == old(self).galaxy,
                self.events == old(self).events,
                self.event_cap == old(self).event_cap,
                self.loads@ == loads0.remove_keys(kids@.subrange(0, i as int).to_set()),
                self.hosts@ == hosts0.remove_keys(kids@.subrange(0, i as int).to_set()),
            decreases kids@.len() - i,
        {
            let c: CellId = kids[i];
            let _ = self.loads.remove(&c);
            let _ = self.hosts.remove(&c);
            proof {
                let seen = kids@.subrange(0, i as int);
                assert(kids@.subrange(0, i + 1) =~= seen.push(c));
                broadcast use vstd::seq_lib::group_seq_properties;

                assert(seen.push(c).to_set() =~= seen.to_set().insert(c));
                assert(self.loads@ =~= loads0.remove_keys(seen.push(c).to_set()));
                assert(self.hosts@ =~= hosts0.remove_keys(seen.push(c).to_set()));
            }
            i = i + 1;
        }
        assert(kids@.subrange(0, i as int) =~= kids@);
    }

    fn push(&mut self, epoch: u64, kind: MapEventKind)
        requires
            old(self).wf(),
        ensures
            final(self).wf(),
            final(self).galaxy == old(self).galaxy,
            final(self).hosts == old(self).hosts,
            final(self).loads == old(self).loads,
            final(self).event_cap == old(self).event_cap,
            final(self).events@ == trail_after(
                old(self).events@,
                old(self).event_cap as int,
                MapEvent { epoch, kind },
            ),
    {
        if self.events.len() == self.event_cap {
            let _ = self.events.pop_front();
        }
        self.events.push_back(MapEvent { epoch, kind });
        assert(self.events@ =~= trail_after(
            old(self).events@,
            old(self).event_cap as int,
            MapEvent { epoch, kind },
        ));
    }

    /// The cells of the map, in the order of their addresses.
    pub fn cells(&self) -> (r: Vec<MapCell>)
        requires
            self.wf(),
            forall|c: CellId| self.galaxy@.contains(c) ==> #[trigger] c.valid(),
        ensures
            r@.len() == self.galaxy.leaf_order().len(),
            forall|i: int|
                0 <= i < r@.len() ==> is_map_cell(
                    #[trigger] r@[i],
                    self.galaxy.leaf_order()[i],
                    self.hosts@,
                    self.loads@,
                ),
    {
        let leaves = self.galaxy.leaves();
        let mut out: Vec<MapCell> = Vec::new();
        let mut i: usize = 0;
        while i < leaves.len()
            invariant
                i <= leaves@.len(),
                self.wf(),
                leaves@ == self.galaxy.leaf_order(),
                leaves@.to_set() == self.galaxy@,
                forall|c: CellId| self.galaxy@.contains(c) ==> #[trigger] c.valid(),
                out@.len() == i,
                forall|j: int|
                    0 <= j < i ==> is_map_cell(
                        #[trigger] out@[j],
                        leaves@[j],
                        self.hosts@,
                        self.loads@,
                    ),
            decreases leaves@.len() - i,
        {
            let c: CellId = leaves[i];
            assert(leaves@.contains(c));
            assert(self.galaxy@.contains(c));
            let host: Option<String> = match self.hosts.get(&c) {
                Some(h) => Some(h.clone()),
                None => None,
            };
            let load: Option<CellLoad> = match self.loads.get(&c) {
                Some(l) => Some(*l),
                None => None,
            };
            out.push(MapCell { cell: c, rect: c.rect(), host, load });
            i = i + 1;
        }
        out
    }

    /// Headline numbers: leaves, players, distinct hosts and the greatest depth.
    pub fn summary(&self) -> (s: MapSummary)
        requires
            self.wf(),
            players_in(
                self.galaxy.leaf_order(),
                self.loads@,
                self.galaxy.leaf_order().len(),
            ) <= u32::MAX,
        ensures
            s.leaf_cells == self.galaxy.leaf_order().len(),
            s.players == players_in(
                self.galaxy.leaf_order(),
                self.loads@,
                self.galaxy.leaf_order().len(),
            ),
            s.host_nodes == hosts_in(
                self.galaxy.leaf_order(),
                self.hosts@,
                self.galaxy.leaf_order().len(),
            ).len(),
            s.max_depth == depth_in(self.galaxy.leaf_order(), self.galaxy.leaf_order().len()),
    {
        let leaves = self.galaxy.leaves();
        let mut players: u32 = 0;
        let mut hosts: SortedSet<String> = SortedSet::new();
        let mut max_depth: u8 = 0;
        let mut i: usize = 0;
        while i < leaves.len()
            invariant
                i <= leaves@.len(),
                self.wf(),
                hosts.wf(),
                players_in(leaves@, self.loads@, leaves@.len()) <= u32::MAX,
                players == players_in(leaves@, self.loads@, i as nat),
                hosts@ == hosts_in(leaves@, self.hosts@, i as nat),
                max_depth == depth_in(leaves@, i as nat),
            decreases leaves@.len() - i,
        {
            let c: CellId = leaves[i];
            proof {
                lemma_players_grow(leaves@, self.loads@, (i + 1) as nat, leaves@.len());
            }
            if let Some(l) = self.loads.get(&c) {
                players = players + l.players;
            }
            if let Some(h) = self.hosts.get(&c) {
                let _ = hosts.insert(h.clone());
            }
            if max_depth < c.depth {
                max_depth = c.depth;
            }
            i = i + 1;
        }
        MapSummary { leaf_cells: leaves.len(), players, host_nodes: hosts.len(), max_depth }
    }

    /// The map as text: a line of totals, then a line for each leaf with its address, a bar of its
    /// heat, its players and the first eight bytes of its host's id.
    pub fn ascii(&self, policy_players: u32, policy_tick_us: u32, policy_bps: u64) -> (s: String)
        requires
            self.wf(),
            forall|c: CellId| self.galaxy@.contains(c) ==> #[trigger] c.valid(),
            players_in(
                self.galaxy.leaf_order(),
                self.loads@,
                self.galaxy.leaf_order().len(),
            ) <= u32::MAX,
            forall|c: CellId| #[trigger]
                self.hosts@.contains_key(c) ==> cuttable(self.hosts@[c]@),
        ensures
            exists|cells: Seq<MapCell>, sum: MapSummary|
                {
                    &&& #[trigger] are_map_cells(cells, *self)
                    &&& #[trigger] is_summary(sum, *self)
                    &&& s@ == header_line(sum) + cell_lines(
                        stably_sorted(cells),
                        stably_sorted(cells).len(),
                        policy_players,
                        policy_tick_us,
                        policy_bps,
                    )
                },
    {
        let cells = self.cells();
        let ghost drawn = cells@;
        let cells = sort_stably(cells);
        let sum = self.summary();
        let mut out: String = String::new();
        push_header(&mut out, &sum);
        let mut i: usize = 0;
        proof {
            assert(out@ =~= header_line(sum) + cell_lines(
                cells@,
                0,
                policy_players,
                policy_tick_us,
                policy_bps,
            ));
        }
        while i < cells.len()
            invariant
                i <= cells@.len(),
                cells@ == stably_sorted(drawn),
                are_map_cells(drawn, *self),
                forall|c: CellId| #[trigger]
                    self.hosts@.contains_key(c) ==> cuttable(self.hosts@[c]@),
                out@ == header_line(sum) + cell_lines(
                    cells@,
                    i as nat,
                    policy_players,
                    policy_tick_us,
                    policy_bps,
                ),
            decreases cells@.len() - i,
        {
            let ghost before = out@;
            proof {
                let m = cells@[i as int];
                crate::sort::lemma_sorted_contains(drawn, m);
                assert(cells@.contains(m));
                let j = choose|j: int| 0 <= j < drawn.len() && drawn[j] == m;
                assert(is_map_cell(
                    drawn[j],
                    self.galaxy.leaf_order()[j],
                    self.hosts@,
                    self.loads@,
                ));
            }
            push_cell_line(&mut out, &cells[i], policy_players, policy_tick_us, policy_bps);
            i = i + 1;
            proof {
                assert(out@ =~= header_line(sum) + cell_lines(
                    cells@,
                    i as nat,
                    policy_players,
                    policy_tick_us,
                    policy_bps,
                ));
            }
        }
        assert(is_summary(sum, *self));
        out
    }
}

pub open spec fn are_map_cells(cells: Seq<MapCell>, m: MapModel) -> bool {
    &&& cells.len() == m.galaxy.leaf_order().len()
    &&& forall|i: int|
        0 <= i < cells.len() ==> is_map_cell(
            #[trigger] cells[i],
            m.galaxy.leaf_order()[i],
            m.hosts@,
            m.loads@,
        )
}

pub open spec fn is_summary(s: MapSummary, m: MapModel) -> bool {
    let leaves = m.galaxy.leaf_order();
    &&& s.leaf_cells == leaves.len()
    &&& s.players == players_in(leaves, m.loads@, leaves.len())
    &&& s.host_nodes == hosts_in(leaves, m.hosts@, leaves.len()).len()
    &&& s.max_depth == depth_in(leaves, leaves.len())
}

/// The line of totals.
pub open spec fn header_line(s: MapSummary) -> Seq<char> {
    "galaxy: "@ + dec(s.leaf_cells as nat) + " leaf cells, "@ + dec(s.players as nat)
        + " players, "@ + dec(s.host_nodes as nat) + " host nodes, depth "@ + dec(
        s.max_depth as nat,
    ) + seq!['\n']
}

/// A text cut to its first eight bytes.
pub open spec fn cut(s: Seq<char>) -> Seq<char> {
    let bytes = encode_utf8(s);
    decode_utf8(bytes.subrange(0, if bytes.len() < 8 { bytes.len() as int } else { 8 }))
}

/// The text can be cut there: eight bytes do not end inside a character.
pub open spec fn cuttable(s: Seq<char>) -> bool {
    let bytes = encode_utf8(s);
    is_char_boundary(bytes, if bytes.len() < 8 { bytes.len() as int } else { 8 })
}

/// The same character, over and over.
pub open spec fn repeated(c: char, n: nat) -> Seq<char> {
    Seq::new(n, |i: int| c)
}

/// How many more characters a text needs to be `width` long.
pub open spec fn padding(s: Seq<char>, width: nat) -> nat {
    if s.len() < width {
        (width - s.len()) as nat
    } else {
        0
    }
}

/// The line of a leaf.
pub open spec fn cell_line(
    m: MapCell,
    policy_players: u32,
    policy_tick_us: u32,
    policy_bps: u64,
) -> Seq<char> {
    let bars = (heat_of(m.load, policy_players, policy_tick_us, policy_bps) / 100) as nat;
    let token = token_of(m.cell);
    let players = dec(
        match m.load {
            Some(l) => l.players as nat,
            None => 0,
        },
    );
    let host = match m.host {
        Some(h) => cut(h@),
        None => "unhosted"@,
    };
    ("  "@ + token + repeated(' ', padding(token, 10)) + " ["@ + repeated('#', bars) + repeated(
        '-',
        (10 - bars) as nat,
    ) + "] "@) + (repeated(' ', padding(players, 4)) + players + "p  "@ + host + seq!['\n'])
}

/// The lines of the first `n` leaves.
pub open spec fn cell_lines(
    cells: Seq<MapCell>,
    n: nat,
    policy_players: u32,
    policy_tick_us: u32,
    policy_bps: u64,
) -> Seq<char>
    decreases n,
{
    if n == 0 {
        Seq::empty()
    } else {
        cell_lines(cells, (n - 1) as nat, policy_players, policy_tick_us, policy_bps) + cell_line(
            cells[n - 1],
            policy_players,
            policy_tick_us,
            policy_bps,
        )
    }
}

fn push_repeated(s: &mut String, c: char, n: usize)
    ensures
        final(s)@ == old(s)@ + repeated(c, n as nat),
{
    let mut i: usize = 0;
    assert(s@ =~= old(s)@ + repeated(c, 0));
    while i < n
        invariant
            i <= n,
            s@ == old(s)@ + repeated(c, i as nat),
        decreases n - i,
    {
        s.push(c);
        i = i + 1;
        assert(s@ =~= old(s)@ + repeated(c, i as nat));
    }
}

fn push_header(out: &mut String, s: &MapSummary)
    ensures
        final(out)@ == old(out)@ + header_line(*s),
{
    out.append("galaxy: ");
    push_dec(out, s.leaf_cells as u64);
    out.append(" leaf cells, ");
    push_dec(out, s.players as u64);
    out.append(" players, ");
    push_dec(out, s.host_nodes as u64);
    out.append(" host nodes, depth ");
    push_dec(out, s.max_depth as u64);
    out.push('\n');
    assert(out@ =~= old(out)@ + header_line(*s));
}

proof fn lemma_append(start: Seq<char>, acc: Seq<char>, piece: Seq<char>)
    ensures
        (start + acc) + piece == start + (acc + piece),
{
    assert((start + acc) + piece =~= start + (acc + piece));
}

/// Appends the address and the bar of a leaf's line.
fn push_bar(out: &mut String, cell: &CellId, bars: usize)
    requires
        bars <= 10,
    ensures
        final(out)@ == old(out)@ + ("  "@ + token_of(*cell) + repeated(
            ' ',
            padding(token_of(*cell), 10),
        ) + " ["@ + repeated('#', bars as nat) + repeated('-', (10 - bars) as nat) + "] "@),
{
    let token: String = cell.token();
    let token_len: usize = token.as_str().unicode_len();
    let pad: usize = if token_len < 10 { 10 - token_len } else { 0 };
    let ghost o = out@;
    let ghost a1 = "  "@ + token@;
    let ghost a2 = a1 + repeated(' ', pad as nat);
    let ghost a3 = a2 + " ["@;
    let ghost a4 = a3 + repeated('#', bars as nat);
    let ghost a5 = a4 + repeated('-', (10 - bars) as nat);
    out.append("  ");
    out.append(token.as_str());
    push_repeated(out, ' ', pad);
    out.append(" [");
    push_repeated(out, '#', bars);
    push_repeated(out, '-', 10 - bars);
    out.append("] ");
    proof {
        lemma_append(o, "  "@, token@);
        lemma_append(o, a1, repeated(' ', pad as nat));
        lemma_append(o, a2, " ["@);
        lemma_append(o, a3, repeated('#', bars as nat));
        lemma_append(o, a4, repeated('-', (10 - bars) as nat));
        lemma_append(o, a5, "] "@);
    }
}

/// Appends the players and the host of a leaf's line.
fn push_tail(out: &mut String, players: u32, host: &str)
    ensures
        final(out)@ == old(out)@ + (repeated(' ', padding(dec(players as nat), 4)) + dec(
            players as nat,
        ) + "p  "@ + host@ + seq!['\n']),
{
    let mut number: String = String::new();
    push_dec(&mut number, players as u64);
    assert(number@ =~= dec(players as nat));
    let number_len: usize = number.as_str().unicode_len();
    let pad: usize = if number_len < 4 { 4 - number_len } else { 0 };
    let ghost o = out@;
    let ghost a1 = repeated(' ', pad as nat);
    let ghost a2 = a1 + number@;
    let ghost a3 = a2 + "p  "@;
    let ghost a4 = a3 + host@;
    push_repeated(out, ' ', pad);
    out.append(number.as_str());
    out.append("p  ");
    out.append(host);
    out.push('\n');
    proof {
        lemma_append(o, a1, number@);
        lemma_append(o, a2, "p  "@);
        lemma_append(o, a3, host@);
        lemma_append(o, a4, seq!['\n']);
        assert(out@ =~= (o + a4) + seq!['\n']);
    }
}

fn push_cell_line(
    out: &mut String,
    m: &MapCell,
    policy_players: u32,
    policy_tick_us: u32,
    policy_bps: u64,
)
    requires
        m.host is Some ==> cuttable(m.host->0@),
    ensures
        final(out)@ == old(out)@ + cell_line(*m, policy_players, policy_tick_us, policy_bps),
{
    let bars: usize = (m.heat(policy_players, policy_tick_us, policy_bps) / 100) as usize;
    let ghost o = out@;
    push_bar(out, &m.cell, bars);
    let ghost left = "  "@ + token_of(m.cell) + repeated(' ', padding(token_of(m.cell), 10))
        + " ["@ + repeated('#', bars as nat) + repeated('-', (10 - bars) as nat) + "] "@;
    let players: u32 = match &m.load {
        Some(l) => l.players,
        None => 0,
    };
    match &m.host {
        Some(h) => {
            let text: &str = h.as_str();
            let n: usize = if text.as_bytes().len() < 8 { text.as_bytes().len() } else { 8 };
            let (head, _tail) = text.split_at(n);
            push_tail(out, players, head);
            proof {
                encode_utf8_decode_utf8(head@);
                lemma_append(
                    o,
                    left,
                    repeated(' ', padding(dec(players as nat), 4)) + dec(players as nat) + "p  "@
                        + head@ + seq!['\n'],
                );
            }
        },
        None => {
            push_tail(out, players, "unhosted");
            proof {
                lemma_append(
                    o,
                    left,
                    repeated(' ', padding(dec(players as nat), 4)) + dec(players as nat) + "p  "@
                        + "unhosted"@ + seq!['\n'],
                );
            }
        },
    }
}

/// The trail of reshapes never grows beyond its cap.
pub proof fn law_trail_is_bounded(trail: Seq<MapEvent>, cap: int, e: MapEvent)
    requires
        cap > 0,
        trail.len() <= cap,
    ensures
        trail_after(trail, cap, e).len() <= cap,
        trail_after(trail, cap, e).last() == e,
{
}

/// How hot a cell is drawn: by whichever of players, tick time and bandwidth is nearest to its limit. It is as hot as can be at one and a half
/// times the limit, and below that in proportion, to the thousandth below; unknown, it is cold.
pub proof fn law_heat(l: CellLoad, players: u32, tick_us: u32, bps: u64)
    requires
        players > 0,
        tick_us > 0,
        bps > 0,
    ensures
        ({
            let h = heat_of(Some(l), players, tick_us, bps);
            &&& 0 <= h <= 1000
            &&& 2 * l.players >= 3 * players ==> h == 1000
            &&& 2 * l.tick_p99_us >= 3 * tick_us ==> h == 1000
            &&& 2 * l.bandwidth_bps >= 3 * bps ==> h == 1000
            &&& h < 1000 ==> 2000 * l.players < 3 * players * (h + 1)
            &&& h < 1000 ==> 2000 * l.tick_p99_us < 3 * tick_us * (h + 1)
            &&& h < 1000 ==> 2000 * l.bandwidth_bps < 3 * bps * (h + 1)
            &&& 3 * players * h <= 2000 * l.players || 3 * tick_us * h <= 2000 * l.tick_p99_us || 3 * bps * h
                <= 2000 * l.bandwidth_bps
        }),
        heat_of(None, players, tick_us, bps) == 0,
{
    let h = heat_of(Some(l), players, tick_us, bps);
    lemma_strain(l.players as int, players as int, h);
    lemma_strain(l.tick_p99_us as int, tick_us as int, h);
    lemma_strain(l.bandwidth_bps as int, bps as int, h);
}

proof fn lemma_strain(value: int, limit: int, h: int)
    requires
        value >= 0,
        limit >= 1,
    ensures
        strain(value, limit) >= 0,
        2 * value >= 3 * limit ==> strain(value, limit) >= 1000,
        strain(value, limit) <= h ==> 2000 * value < 3 * limit * (h + 1),
        h <= strain(value, limit) ==> 3 * limit * h <= 2000 * value,
{
    let (a, b) = (value * 2000, 3 * limit);
    let s = strain(value, limit);
    vstd::arithmetic::div_mod::lemma_fundamental_div_mod(a, b);
    vstd::arithmetic::div_mod::lemma_mod_bound(a, b);
    vstd::arithmetic::div_mod::lemma_div_pos_is_pos(a, b);
    if 2 * value >= 3 * limit {
        assert(s >= 1000) by (nonlinear_arith)
            requires
                b * s + b > a,
                a >= 1000 * b,
                b > 0,
        ;
    }
    if s <= h {
        assert(a < b * (h + 1)) by (nonlinear_arith)
            requires
                a < b * s + b,
                s <= h,
                b > 0,
        ;
    }
    if h <= s {
        assert(b * h <= a) by (nonlinear_arith)
            requires
                b * s <= a,
                h <= s,
                b > 0,
        ;
    }
}

/// After a split each child runs where it was placed, the cell itself runs nowhere, and every other cell where it did.
pub proof fn law_hosts_after_a_split(
    hosts: Map<CellId, String>,
    cell: CellId,
    children: Seq<CellId>,
    place_on: Seq<String>,
    other: CellId,
)
    requires
        children.len() == 4,
        place_on.len() == 4,
        children.no_duplicates(),
        !children.contains(cell),
        other != cell,
        !children.contains(other),
    ensures
        ({
            let after = hosts_after_split(hosts, cell, children, place_on);
            &&& forall|i: int| 0 <= i < 4 ==> after.contains_pair(#[trigger] children[i], place_on[i])
            &&& !after.contains_key(cell)
            &&& after.contains_key(other) <==> hosts.contains_key(other)
            &&& hosts.contains_key(other) ==> after[other] == hosts[other]
        }),
{
    let after = hosts_after_split(hosts, cell, children, place_on);
    assert(children[0] != children[1] && children[0] != children[2] && children[0] != children[3]);
    assert(children[1] != children[2] && children[1] != children[3] && children[2] != children[3]);
    assert(children.contains(children[0]) && children.contains(children[1]) && children.contains(
        children[2],
    ) && children.contains(children[3]));
}

/// The trail keeps the latest events in their order; when it is full the oldest goes.
pub proof fn law_trail_keeps_the_latest(trail: Seq<MapEvent>, cap: int, e: MapEvent)
    requires
        cap > 0,
        trail.len() <= cap,
    ensures
        trail_after(trail, cap, e).last() == e,
        trail.len() < cap ==> trail_after(trail, cap, e).drop_last() == trail,
        trail.len() == cap ==> trail_after(trail, cap, e) == trail.push(e).subrange(1, cap + 1),
{
    assert(trail.len() < cap ==> trail_after(trail, cap, e).drop_last() =~= trail);
    assert(trail.len() == cap ==> trail_after(trail, cap, e) =~= trail.push(e).subrange(1, cap + 1));
}

/// What a summary counts: every leaf, the players of each whose load is known, each node that runs one, once, and the greatest depth.
pub proof fn law_summaries_count(
    leaves: Seq<CellId>,
    loads: Map<CellId, CellLoad>,
    hosts: Map<CellId, String>,
    n: nat,
)
    requires
        n < leaves.len(),
    ensures
        ({
            let leaf = leaves[n as int];
            &&& loads.contains_key(leaf) ==> players_in(leaves, loads, n + 1) == players_in(leaves, loads, n)
                + loads[leaf].players
            &&& !loads.contains_key(leaf) ==> players_in(leaves, loads, n + 1) == players_in(leaves, loads, n)
            &&& hosts.contains_key(leaf) ==> hosts_in(leaves, hosts, n + 1) == hosts_in(leaves, hosts, n).insert(
                hosts[leaf]@,
            )
            &&& !hosts.contains_key(leaf) ==> hosts_in(leaves, hosts, n + 1) == hosts_in(leaves, hosts, n)
            &&& depth_in(leaves, n + 1) >= leaf.depth && depth_in(leaves, n + 1) >= depth_in(leaves, n)
            &&& depth_in(leaves, n + 1) == leaf.depth || depth_in(leaves, n + 1) == depth_in(leaves, n)
        }),
        players_in(leaves, loads, 0) == 0,
        hosts_in(leaves, hosts, 0) == Set::<Seq<char>>::empty(),
        depth_in(leaves, 0) == 0,
{
}

/// A cell is drawn where it lies: as wide as its depth makes it, so many sides from the corner of the plane as its address says, with the host and
/// the load that it has.
pub proof fn law_cells_are_drawn_where_they_lie(
    m: MapCell,
    c: CellId,
    hosts: Map<CellId, String>,
    loads: Map<CellId, CellLoad>,
    side: int,
)
    requires
        is_map_cell(m, c, hosts, loads),
        c.valid(),
        side * vstd::arithmetic::power2::pow2(c.depth as nat) == 1_125_899_906_842_624,
    ensures
        m.cell == c,
        m.rect.span == side,
        m.rect.x + 562_949_953_421_312 == c.x * side,
        m.rect.y + 562_949_953_421_312 == c.y * side,
        hosts.contains_key(c) ==> m.host == Some(hosts[c]),
        !hosts.contains_key(c) ==> m.host is None,
        loads.contains_key(c) ==> m.load == Some(loads[c]),
        !loads.contains_key(c) ==> m.load is None,
{
    crate::galaxy::lemma_span_is_a_share(c.depth, side);
}

/// What a commit changes on the map. A merge puts the parent where it is placed and takes its children off; a placement and a migration put the cell where
/// it goes; and all other cells stay where they are. A split or a merge reshapes the map and forgets the loads of what is gone, the others do not.
pub proof fn law_commits_change_the_map(before: MapModel, after: MapModel, epoch: u64, op: ShapeOp, x: CellId)
    requires
        shaped(before, after, epoch, op),
    ensures
        match op {
            ShapeOp::Split { cell, children, place_on, from_snapshot } => {
                &&& !after.loads@.contains_key(cell)
                &&& x != cell ==> (after.loads@.contains_key(x) <==> before.loads@.contains_key(x))
                &&& after.events@.len() > 0 && after.events@.last().epoch == epoch && (
                after.events@.last().kind matches MapEventKind::Split { cell: c } && c == cell)
            },
            ShapeOp::Merge { parent, from_snapshots, place_on } => {
                &&& after.hosts@.contains_pair(parent, place_on)
                &&& x != parent ==> (after.hosts@.contains_key(x) <==> before.hosts@.contains_key(x)
                    && !children_of(parent).contains(x))
                &&& x != parent && after.hosts@.contains_key(x) ==> after.hosts@[x] == before.hosts@[x]
                &&& after.loads@.contains_key(x) <==> before.loads@.contains_key(x) && !children_of(
                    parent,
                ).contains(x)
                &&& after.events@.len() > 0 && (after.events@.last().kind matches MapEventKind::Merge {
                    parent: p,
                } && p == parent)
            },
            ShapeOp::Place { cell, node, from_snapshot } => {
                &&& after.hosts@.contains_pair(cell, node)
                &&& x != cell ==> (after.hosts@.contains_key(x) <==> before.hosts@.contains_key(x))
                &&& x != cell && before.hosts@.contains_key(x) ==> after.hosts@[x] == before.hosts@[x]
                &&& after.galaxy == before.galaxy && after.loads == before.loads && after.events
                    == before.events
            },
            ShapeOp::Migrate { cell, from, to, snapshot } => {
                &&& after.hosts@.contains_pair(cell, to)
                &&& x != cell ==> (after.hosts@.contains_key(x) <==> before.hosts@.contains_key(x))
                &&& x != cell && before.hosts@.contains_key(x) ==> after.hosts@[x] == before.hosts@[x]
                &&& after.galaxy == before.galaxy && after.loads == before.loads
            },
        },
{
    if let ShapeOp::Merge { parent, from_snapshots, place_on } = op {
        assert(children_of(parent).to_set().contains(x) <==> children_of(parent).contains(x));
    }
}

} // verus!
