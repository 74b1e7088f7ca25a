//! The frontier: the galaxy grows outward as players push into the void.
//!
//! A cell is charted by the first ship that enters it. Who was first, and what they named what they
//! found, is settled by rules that give every node the same history whatever the order of the gossip.
use vstd::prelude::*;
use vstd::string::*;

use crate::galaxy::{cell_at, ring_of, CellId};
use crate::order::{ascending, lemma_ascending_unique, views, Ordered, SortedMap, SortedSet};
use crate::sort::{
    in_order, lemma_filter_push, lemma_sorted_contains, lemma_stably_sorted, sort_stably, stably_sorted, Ranked,
};
use crate::text::{lemma_text_order, text_below, text_less};

pub mod wire;

verus! {

/// A player's id.
pub type PlayerId = String;

/// The depth at which cells are charted.
pub const CHART_DEPTH: u8 = 12;

/// A named feature of the map.
#[derive(Debug, PartialEq)]
pub struct Landmark {
    pub cell: CellId,
    pub kind: LandmarkKind,
    pub name: String,
    pub named_by: PlayerId,
    pub epoch: u64,
}

#[derive(Debug, Clone, Copy, PartialEq, Eq, Structural)]
pub enum LandmarkKind {
    System,
    Nebula,
    Wormhole,
    Ruin,
    /// A region that a faction has claimed and named.
    Territory,
}

/// A player was first into a cell.
#[derive(Debug, PartialEq)]
pub struct Discovery {
    pub cell: CellId,
    pub by: PlayerId,
    pub epoch: u64,
    /// How deep into the frontier this was.
    pub ring: u32,
}

impl Clone for Discovery {
    fn clone(&self) -> (r: Self)
        ensures
            r == *self,
    {
        Discovery { cell: self.cell, by: self.by.clone(), epoch: self.epoch, ring: self.ring }
    }
}

/// A discovery with a text in place of a string.
pub struct DiscoveryView {
    pub cell: CellId,
    pub by: Seq<char>,
    pub epoch: u64,
    pub ring: u32,
}

impl View for Discovery {
    type V = DiscoveryView;

    open spec fn view(&self) -> DiscoveryView {
        DiscoveryView { cell: self.cell, by: self.by@, epoch: self.epoch, ring: self.ring }
    }
}

/// What happened when a ship entered a cell. The contents of the cell come with it.
#[derive(Debug)]
pub enum FrontierEvent<G> {
    /// The cell was charted before.
    Revealed(Box<G>),
    /// The ship is the first: the cell is charted, and these neighbours of it are the new edge.
    FirstDiscovery { genesis: Box<G>, discovery: Discovery, advanced: Vec<CellId> },
}

/// The charted cell borders on one that is not.
pub open spec fn at_edge(charted: Set<CellId>, c: CellId) -> bool {
    exists|i: int| 0 <= i < ring_of(c).len() && !charted.contains(#[trigger] ring_of(c)[i])
}

/// The frontier as a node knows it: the cells that are charted.
pub struct Frontier {
    charted: SortedSet<CellId>,
}

impl View for Frontier {
    type V = Set<CellId>;

    closed spec fn view(&self) -> Set<CellId> {
        self.charted@
    }
}

impl Frontier {
    pub closed spec fn wf(&self) -> bool {
        self.charted.wf()
    }

    /// The charted cells in ascending order.
    pub closed spec fn chart_order(&self) -> Seq<CellId> {
        self.charted.order()
    }

    /// A new galaxy: the cell at the origin is charted, everything else is void.
    pub fn genesis() -> (f: Self)
        ensures
            f.wf(),
            f@ == set![cell_at(CHART_DEPTH, 0, 0)],
    {
        let mut charted: SortedSet<CellId> = SortedSet::new();
        let _ = charted.insert(CellId::at_depth_for(CHART_DEPTH, 0, 0));
        let f = Frontier { charted };
        assert(f@ =~= set![cell_at(CHART_DEPTH, 0, 0)]);
        f
    }

    pub fn is_charted(&self, cell: &CellId) -> (r: bool)
        requires
            self.wf(),
        ensures
            r == self@.contains(*cell),
    {
        self.charted.contains(cell)
    }

    fn borders_void(&self, c: &CellId) -> (r: bool)
        requires
            self.wf(),
            c.depth < 32,
        ensures
            r == at_edge(self@, *c),
    {
        let around = c.ring();
        let mut i: usize = 0;
        while i < around.len()
            invariant
                i <= around@.len(),
                around@ == ring_of(*c),
                self.wf(),
                forall|j: int| 0 <= j < i ==> self@.contains(#[trigger] around@[j]),
            decreases around@.len() - i,
        {
            if !self.charted.contains(&around[i]) {
                assert(!self@.contains(ring_of(*c)[i as int]));
                return true;
            }
            i = i + 1;
        }
        false
    }

    /// The edge: the charted cells that border on the void, in ascending order.
    pub fn ring(&self) -> (r: Vec<CellId>)
        requires
            self.wf(),
            forall|c: CellId| self@.contains(c) ==> #[trigger] c.depth < 32,
        ensures
            r@ == self.chart_order().filter(|c: CellId| at_edge(self@, c)),
            ascending(self.chart_order()),
            self.chart_order().to_set() == self@,
    {
        let cells = self.charted.items();
        let ghost all = cells@;
        let ghost p = |c: CellId| at_edge(self@, c);
        let mut out: Vec<CellId> = Vec::new();
        let mut i: usize = 0;
        proof {
            reveal(Seq::filter);
            assert(views(all) =~= all);
            assert(all.subrange(0, 0) =~= Seq::<CellId>::empty());
        }
        while i < cells.len()
            invariant
                i <= all.len(),
                all == cells@,
                all.to_set() == self@,
                self.wf(),
                forall|c: CellId| self@.contains(c) ==> #[trigger] c.depth < 32,
                p == (|c: CellId| at_edge(self@, c)),
                out@ == all.subrange(0, i as int).filter(p),
            decreases all.len() - i,
        {
            let c: CellId = cells[i];
            proof {
                assert(all.contains(c));
                assert(self@.contains(c));
                assert(all.subrange(0, i + 1) =~= all.subrange(0, i as int).push(c));
                lemma_filter_push(all.subrange(0, i as int), c, p);
            }
            if self.borders_void(&c) {
                out.push(c);
            }
            i = i + 1;
        }
        assert(all.subrange(0, i as int) =~= all);
        out
    }

    /// A ship enters a cell. Where nobody was before, the cell is charted, the discovery is the
    /// ship's, and the neighbours that are still void are the new edge.
    pub fn enter<G>(
        &mut self,
        genesis: G,
        ring: u32,
        cell: CellId,
        by: &PlayerId,
        epoch: u64,
    ) -> (e: FrontierEvent<G>)
        requires
            old(self).wf(),
            cell.depth < 32,
        ensures
            final(self).wf(),
            final(self)@ == old(self)@.insert(cell),
            final(self)@.finite(),
            final(self)@.len() == old(self)@.len() + (if old(self)@.contains(cell) {
                0nat
            } else {
                1nat
            }),
            e is Revealed <==> old(self)@.contains(cell),
            match e {
                FrontierEvent::Revealed(g) => *g == genesis && final(self)@ == old(self)@,
                FrontierEvent::FirstDiscovery { genesis: g, discovery, advanced } => {
                    &&& *g == genesis
                    &&& discovery == (Discovery { cell, by: *by, epoch, ring })
                    &&& advanced@ == ring_of(cell).filter(
                        |n: CellId| !final(self)@.contains(n),
                    )
                },
            },
    {
        proof {
            self.lemma_finite();
        }
        if self.charted.contains(&cell) {
            assert(self@.insert(cell) =~= self@);
            return FrontierEvent::Revealed(Box::new(genesis));
        }
        let _ = self.charted.insert(cell);
        let discovery = Discovery { cell, by: by.clone(), epoch, ring };
        let around = cell.ring();
        let ghost all = around@;
        let ghost now = self@;
        let ghost p = |n: CellId| !now.contains(n);
        let mut advanced: Vec<CellId> = Vec::new();
        let mut i: usize = 0;
        proof {
            reveal(Seq::filter);
            assert(all.subrange(0, 0) =~= Seq::<CellId>::empty());
        }
        while i < around.len()
            invariant
                i <= all.len(),
                all == around@,
                self.wf(),
                self@ == now,
                p == (|n: CellId| !now.contains(n)),
                advanced@ == all.subrange(0, i as int).filter(p),
            decreases all.len() - i,
        {
            let n: CellId = around[i];
            proof {
                assert(all.subrange(0, i + 1) =~= all.subrange(0, i as int).push(n));
                lemma_filter_push(all.subrange(0, i as int), n, p);
            }
            if !self.charted.contains(&n) {
                advanced.push(n);
            }
            i = i + 1;
        }
        assert(all.subrange(0, i as int) =~= all);
        FrontierEvent::FirstDiscovery { genesis: Box::new(genesis), discovery, advanced }
    }

    /// Takes in a discovery that another node has announced.
    pub fn observe(&mut self, d: &Discovery)
        requires
            old(self).wf(),
        ensures
            final(self).wf(),
            final(self)@ == old(self)@.insert(d.cell),
            final(self)@.finite(),
    {
        proof {
            self.lemma_finite();
        }
        let _ = self.charted.insert(d.cell);
    }

    pub fn charted_count(&self) -> (n: usize)
        requires
            self.wf(),
        ensures
            self@.finite(),
            n == self@.len(),
    {
        self.charted.len()
    }

    /// Only so many cells are charted.
    pub proof fn lemma_finite(&self)
        requires
            self.wf(),
        ensures
            self@.finite(),
    {
        self.charted.lemma_order();
    }
}

/// A cell is discovered once. The first ship to enter it raises the number of charted cells by one; from
/// then on it is charted, so entering it again changes nothing.
pub proof fn law_discovered_once(before: Frontier, after: Frontier, cell: CellId)
    requires
        before.wf(),
        after.wf(),
        after@ == before@.insert(cell),
    ensures
        after@.contains(cell),
        after@.insert(cell) == after@,
        before@.subset_of(after@),
        !before@.contains(cell) ==> after@.len() == before@.len() + 1,
        before@.contains(cell) ==> after@ == before@ && after@.len() == before@.len(),
{
    before.lemma_finite();
    assert(after@.insert(cell) =~= after@);
    if before@.contains(cell) {
        assert(after@ =~= before@);
    }
}

/// How much of the galaxy an explorer has put on the map.
#[derive(Debug, Clone, Copy, PartialEq, Eq, Structural)]
pub struct ExplorerRecord {
    pub discoveries: u32,
    pub landmarks_named: u32,
    /// The deepest ring that they have reached.
    pub deepest_ring: u32,
}

impl Default for ExplorerRecord {
    fn default() -> (r: Self)
        ensures
            r == no_record(),
    {
        ExplorerRecord { discoveries: 0, landmarks_named: 0, deepest_ring: 0 }
    }
}

pub open spec fn no_record() -> ExplorerRecord {
    ExplorerRecord { discoveries: 0, landmarks_named: 0, deepest_ring: 0 }
}

impl View for ExplorerRecord {
    type V = ExplorerRecord;

    open spec fn view(&self) -> ExplorerRecord {
        *self
    }
}

/// The claim comes before another: the earlier epoch, and in one epoch the lower id.
pub open spec fn precedes(a: DiscoveryView, b: DiscoveryView) -> bool {
    a.epoch < b.epoch || (a.epoch == b.epoch && text_below(a.by, b.by))
}

/// The claim is the first for its cell.
pub open spec fn claim_wins(firsts: Map<CellId, DiscoveryView>, d: DiscoveryView) -> bool {
    firsts.contains_key(d.cell) ==> precedes(d, firsts[d.cell])
}

/// Who was first where, once a claim has come in.
pub open spec fn first_after(
    firsts: Map<CellId, DiscoveryView>,
    d: DiscoveryView,
) -> Map<CellId, DiscoveryView> {
    if claim_wins(firsts, d) {
        firsts.insert(d.cell, d)
    } else {
        firsts
    }
}

/// Who was first where, once all of the claims have come in, one after the other.
pub open spec fn recorded(claims: Seq<DiscoveryView>) -> Map<CellId, DiscoveryView>
    decreases claims.len(),
{
    if claims.len() == 0 {
        Map::empty()
    } else {
        first_after(recorded(claims.drop_last()), claims.last())
    }
}

/// The cells that a player was first in.
pub open spec fn cells_of(firsts: Map<CellId, DiscoveryView>, who: Seq<char>) -> Set<CellId> {
    firsts.dom().filter(|c: CellId| firsts[c].by == who)
}

/// How many features a player has named.
pub open spec fn named_by(namers: Map<Seq<char>, u32>, who: Seq<char>) -> u32 {
    if namers.contains_key(who) {
        namers[who]
    } else {
        0
    }
}

/// What a player has put on the map: the cells that they were first in, the features that they have
/// named, and the deepest ring of those cells.
pub open spec fn is_record(
    r: ExplorerRecord,
    firsts: Map<CellId, DiscoveryView>,
    namers: Map<Seq<char>, u32>,
    who: Seq<char>,
) -> bool {
    let cells = cells_of(firsts, who);
    &&& r.discoveries == cells.len()
    &&& r.landmarks_named == named_by(namers, who)
    &&& forall|c: CellId| #[trigger] cells.contains(c) ==> firsts[c].ring <= r.deepest_ring
    &&& r.deepest_ring == 0 || exists|c: CellId| #[trigger]
        cells.contains(c) && firsts[c].ring == r.deepest_ring
}

/// The player was first somewhere or has named something.
pub open spec fn explores(
    firsts: Map<CellId, DiscoveryView>,
    namers: Map<Seq<char>, u32>,
    who: Seq<char>,
) -> bool {
    namers.contains_key(who) || exists|c: CellId| #[trigger] cells_of(firsts, who).contains(c)
}

/// The player is on the board.
pub open spec fn on_board(board: Seq<(PlayerId, ExplorerRecord)>, who: Seq<char>) -> bool {
    exists|i: int| 0 <= i < board.len() && (#[trigger] board[i]).0@ == who
}

/// The board of the explorers: everyone who explores, each once, with what they have put on the map;
/// by what they have charted, then by how deep they went, then by id.
pub open spec fn is_board(
    board: Seq<(PlayerId, ExplorerRecord)>,
    firsts: Map<CellId, DiscoveryView>,
    namers: Map<Seq<char>, u32>,
) -> bool {
    &&& in_order(board)
    &&& forall|i: int, j: int|
        0 <= i < j < board.len() ==> (#[trigger] board[i]).0@ != (#[trigger] board[j]).0@
    &&& forall|who: Seq<char>| #[trigger] on_board(board, who) <==> explores(firsts, namers, who)
    &&& forall|i: int|
        0 <= i < board.len() ==> is_record(
            (#[trigger] board[i]).1,
            firsts,
            namers,
            board[i].0@,
        )
}

/// The features of a cell that have a name.
pub open spec fn named_in(landmarks: Map<CellId, Vec<Landmark>>, cell: CellId) -> Seq<Landmark> {
    if landmarks.contains_key(cell) {
        landmarks[cell]@
    } else {
        Seq::empty()
    }
}

/// A feature of that kind has a name.
pub open spec fn has_kind(named: Seq<Landmark>, kind: LandmarkKind) -> bool {
    exists|i: int| 0 <= i < named.len() && (#[trigger] named[i]).kind == kind
}

/// An explorer comes before another on the board.
pub open spec fn outranks(a: (Seq<char>, ExplorerRecord), b: (Seq<char>, ExplorerRecord)) -> bool {
    a.1.discoveries > b.1.discoveries || (a.1.discoveries == b.1.discoveries && (a.1.deepest_ring
        > b.1.deepest_ring || (a.1.deepest_ring == b.1.deepest_ring && text_below(a.0, b.0))))
}

impl Ranked for (PlayerId, ExplorerRecord) {
    open spec fn before(&self, other: &Self) -> bool {
        outranks((self.0@, self.1), (other.0@, other.1))
    }

    fn goes_before(&self, other: &Self) -> (r: bool) {
        self.1.discoveries > other.1.discoveries || (self.1.discoveries == other.1.discoveries && (
        self.1.deepest_ring > other.1.deepest_ring || (self.1.deepest_ring == other.1.deepest_ring
            && text_less(self.0.as_str(), other.0.as_str()))))
    }

    proof fn before_asymmetric(a: &Self, b: &Self) {
        lemma_text_order(a.0@, b.0@, a.0@);
    }

    proof fn before_negatively_transitive(a: &Self, b: &Self, c: &Self) {
        lemma_text_order(a.0@, b.0@, c.0@);
        lemma_text_order(a.0@, c.0@, b.0@);
        lemma_text_order(b.0@, a.0@, c.0@);
        lemma_text_order(b.0@, c.0@, a.0@);
        lemma_text_order(c.0@, b.0@, a.0@);
        lemma_text_order(c.0@, a.0@, b.0@);
    }
}

/// The records as the first of the cells are counted in: everyone who explores has theirs.
spec fn tallied(
    tally: Map<Seq<char>, ExplorerRecord>,
    firsts: Map<CellId, DiscoveryView>,
    namers: Map<Seq<char>, u32>,
) -> bool {
    &&& forall|who: Seq<char>| #[trigger] tally.contains_key(who) <==> explores(firsts, namers, who)
    &&& forall|who: Seq<char>| #[trigger]
        tally.contains_key(who) ==> is_record(tally[who], firsts, namers, who)
}

/// A record that counts one cell more.
spec fn credited(r: ExplorerRecord, ring: u32) -> ExplorerRecord {
    ExplorerRecord {
        discoveries: (r.discoveries + 1) as u32,
        landmarks_named: r.landmarks_named,
        deepest_ring: if r.deepest_ring < ring {
            ring
        } else {
            r.deepest_ring
        },
    }
}

proof fn lemma_cells_insert(
    firsts: Map<CellId, DiscoveryView>,
    c: CellId,
    d: DiscoveryView,
    who: Seq<char>,
)
    requires
        !firsts.contains_key(c),
    ensures
        cells_of(firsts.insert(c, d), who) == (if d.by == who {
            cells_of(firsts, who).insert(c)
        } else {
            cells_of(firsts, who)
        }),
{
    assert(cells_of(firsts.insert(c, d), who) =~= (if d.by == who {
        cells_of(firsts, who).insert(c)
    } else {
        cells_of(firsts, who)
    }));
}

proof fn lemma_tally_step(
    tally: Map<Seq<char>, ExplorerRecord>,
    firsts: Map<CellId, DiscoveryView>,
    namers: Map<Seq<char>, u32>,
    c: CellId,
    d: DiscoveryView,
)
    requires
        tallied(tally, firsts, namers),
        firsts.dom().finite(),
        !firsts.contains_key(c),
        cells_of(firsts, d.by).len() < u32::MAX,
    ensures
        ({
            let was = if tally.contains_key(d.by) {
                tally[d.by]
            } else {
                no_record()
            };
            was.discoveries < u32::MAX && tallied(
                tally.insert(d.by, credited(was, d.ring)),
                firsts.insert(c, d),
                namers,
            )
        }),
{
    let now = firsts.insert(c, d);
    let was = if tally.contains_key(d.by) {
        tally[d.by]
    } else {
        no_record()
    };
    let r = credited(was, d.ring);
    let after = tally.insert(d.by, r);
    let mine = cells_of(firsts, d.by);
    lemma_cells_insert(firsts, c, d, d.by);
    vstd::set_lib::lemma_len_subset(mine, firsts.dom());
    assert(!mine.contains(c));
    assert(explores(firsts, namers, d.by) <==> tally.contains_key(d.by));
    if !tally.contains_key(d.by) {
        assert(mine =~= Set::empty()) by {
            assert forall|x: CellId| !mine.contains(x) by {
                if mine.contains(x) {
                    assert(explores(firsts, namers, d.by));
                }
            }
        }
    }
    assert(is_record(was, firsts, namers, d.by));
    assert(cells_of(now, d.by).contains(c));
    assert(is_record(r, now, namers, d.by)) by {
        let cells = cells_of(now, d.by);
        assert forall|x: CellId| #[trigger] cells.contains(x) implies now[x].ring
            <= r.deepest_ring by {
            if x != c {
                assert(mine.contains(x));
            }
        }
        if was.deepest_ring >= d.ring && was.deepest_ring > 0 {
            let x = choose|x: CellId| #[trigger]
                mine.contains(x) && firsts[x].ring == was.deepest_ring;
            assert(cells.contains(x) && now[x].ring == r.deepest_ring);
        } else if r.deepest_ring > 0 {
            assert(cells.contains(c) && now[c].ring == r.deepest_ring);
        }
    }
    assert forall|who: Seq<char>| #[trigger] after.contains_key(who) <==> explores(
        now,
        namers,
        who,
    ) by {
        lemma_cells_insert(firsts, c, d, who);
        assert(tally.contains_key(who) <==> explores(firsts, namers, who));
        if who == d.by {
            assert(explores(now, namers, who));
        } else {
            assert(cells_of(now, who) == cells_of(firsts, who));
        }
    }
    assert forall|who: Seq<char>| #[trigger] after.contains_key(who) implies is_record(
        after[who],
        now,
        namers,
        who,
    ) by {
        lemma_cells_insert(firsts, c, d, who);
        if who != d.by {
            assert(tally.contains_key(who));
            let cells = cells_of(firsts, who);
            assert(is_record(tally[who], firsts, namers, who));
            assert forall|x: CellId| #[trigger] cells.contains(x) implies now[x].ring
                <= tally[who].deepest_ring by {
            }
            if tally[who].deepest_ring > 0 {
                let x = choose|x: CellId| #[trigger]
                    cells.contains(x) && firsts[x].ring == tally[who].deepest_ring;
                assert(cells_of(now, who).contains(x) && now[x].ring == tally[who].deepest_ring);
            }
        }
    }
}

/// The record of who charted what and what they named it.
pub struct Cartography {
    /// The first discoverer of each cell.
    pub first_by: SortedMap<CellId, Discovery>,
    /// The named features of each cell.
    pub landmarks: SortedMap<CellId, Vec<Landmark>>,
    /// How many features each player has named.
    pub namers: SortedMap<PlayerId, u32>,
    /// What is shown for a cell in which nothing has a name.
    pub unnamed: Vec<Landmark>,
}

impl Default for Cartography {
    fn default() -> (c: Self)
        ensures
            c.wf(),
            c.first_by@ == Map::<CellId, Discovery>::empty(),
            c.landmarks@ == Map::<CellId, Vec<Landmark>>::empty(),
            c.firsts() == Map::<CellId, DiscoveryView>::empty(),
            c.namers@ == Map::<Seq<char>, u32>::empty(),
    {
        let c = Cartography {
            first_by: SortedMap::new(),
            landmarks: SortedMap::new(),
            namers: SortedMap::new(),
            unnamed: Vec::new(),
        };
        assert(c.firsts() =~= Map::<CellId, DiscoveryView>::empty());
        c
    }
}

impl Cartography {
    pub open spec fn wf(&self) -> bool {
        self.first_by.wf() && self.landmarks.wf() && self.namers.wf() && self.unnamed@.len() == 0
    }

    /// The first claim of each cell.
    pub open spec fn firsts(&self) -> Map<CellId, DiscoveryView> {
        self.first_by@.map_values(|d: Discovery| d@)
    }

    /// Takes a claim of discovery in. It wins where the cell has no discoverer or a later one; the
    /// credit is then its player's, and no longer that of the player who is displaced.
    pub fn claim_discovery(&mut self, d: Discovery) -> (win: bool)
        requires
            old(self).wf(),
        ensures
            final(self).wf(),
            win == claim_wins(old(self).firsts(), d@),
            final(self).firsts() == first_after(old(self).firsts(), d@),
            final(self).first_by@ == (if win {
                old(self).first_by@.insert(d.cell, d)
            } else {
                old(self).first_by@
            }),
            final(self).landmarks == old(self).landmarks,
            final(self).namers == old(self).namers,
    {
        let win: bool = match self.first_by.get(&d.cell) {
            Some(e) => d.epoch < e.epoch || (d.epoch == e.epoch && text_less(
                d.by.as_str(),
                e.by.as_str(),
            )),
            None => true,
        };
        let ghost before = self.firsts();
        if win {
            let cell: CellId = d.cell;
            let _ = self.first_by.insert(cell, d);
            assert(self.firsts() =~= before.insert(cell, d@));
        }
        win
    }

    /// Names a feature. The first name for a kind of feature in a cell stays.
    pub fn name_landmark(&mut self, lm: Landmark) -> (named: bool)
        requires
            old(self).wf(),
            named_by(old(self).namers@, lm.named_by@) < u32::MAX,
        ensures
            final(self).wf(),
            named == !has_kind(named_in(old(self).landmarks@, lm.cell), lm.kind),
            final(self).first_by == old(self).first_by,
            forall|c: CellId|
                #![trigger named_in(final(self).landmarks@, c)]
                named_in(final(self).landmarks@, c) == (if named && c == lm.cell {
                    named_in(old(self).landmarks@, c).push(lm)
                } else {
                    named_in(old(self).landmarks@, c)
                }),
            final(self).namers@ == (if named {
                old(self).namers@.insert(
                    lm.named_by@,
                    (named_by(old(self).namers@, lm.named_by@) + 1) as u32,
                )
            } else {
                old(self).namers@
            }),
    {
        let ghost before = named_in(self.landmarks@, lm.cell);
        let mut list: Vec<Landmark> = match self.landmarks.remove(&lm.cell) {
            Some(list) => list,
            None => Vec::new(),
        };
        assert(list@ =~= before);
        let mut taken: bool = false;
        let mut i: usize = 0;
        while i < list.len()
            invariant
                i <= list@.len(),
                taken == exists|j: int| 0 <= j < i && (#[trigger] list@[j]).kind == lm.kind,
            decreases list@.len() - i,
        {
            if list[i].kind == lm.kind {
                assert(list@[i as int].kind == lm.kind);
                taken = true;
            }
            i = i + 1;
        }
        let cell: CellId = lm.cell;
        if !taken {
            let n: u32 = match self.namers.get(&lm.named_by) {
                Some(n) => *n,
                None => 0,
            };
            let _ = self.namers.insert(lm.named_by.clone(), n + 1);
            list.push(lm);
        }
        let _ = self.landmarks.insert(cell, list);
        !taken
    }

    pub fn first_discoverer(&self, cell: &CellId) -> (r: Option<&PlayerId>)
        requires
            self.wf(),
        ensures
            match r {
                Some(who) => self.first_by@.contains_key(*cell) && *who == self.first_by@[*cell].by,
                None => !self.first_by@.contains_key(*cell),
            },
    {
        match self.first_by.get(cell) {
            Some(d) => Some(&d.by),
            None => None,
        }
    }

    /// The named features of a cell.
    pub fn landmarks(&self, cell: &CellId) -> (r: &[Landmark])
        requires
            self.wf(),
        ensures
            r@ == named_in(self.landmarks@, *cell),
    {
        match self.landmarks.get(cell) {
            Some(list) => list.as_slice(),
            None => {
                assert(self.unnamed@ =~= Seq::<Landmark>::empty());
                self.unnamed.as_slice()
            },
        }
    }

    fn namer_records(&self) -> (tally: SortedMap<PlayerId, ExplorerRecord>)
        requires
            self.wf(),
        ensures
            tally.wf(),
            tallied(tally@, Map::empty(), self.namers@),
    {
        let mut tally: SortedMap<PlayerId, ExplorerRecord> = SortedMap::new();
        let ghost keys = self.namers.key_order();
        let ghost counts = self.namers.value_order();
        let ghost none = Map::<CellId, DiscoveryView>::empty();
        let mut i: usize = 0;
        proof {
            self.namers.lemma_orders();
        }
        while i < self.namers.len()
            invariant
                i <= keys.len() == counts.len(),
                self.namers.wf(),
                keys == self.namers.key_order(),
                counts == self.namers.value_order(),
                tally.wf(),
                forall|who: Seq<char>| #[trigger]
                    tally@.contains_key(who) <==> views(keys).subrange(0, i as int).contains(who),
                forall|who: Seq<char>| #[trigger]
                    tally@.contains_key(who) ==> self.namers@.contains_key(who) && tally@[who] == (
                    ExplorerRecord { landmarks_named: self.namers@[who], ..no_record() }),
            decreases keys.len() - i,
        {
            proof {
                self.namers.lemma_orders();
            }
            let who: PlayerId = self.namers.keys()[i].clone();
            let n: u32 = self.namers.values()[i];
            proof {
                assert(keys[i as int]@ == who@);
                assert(self.namers@.contains_pair(keys[i as int]@, counts[i as int]));
                assert(views(keys)[i as int] == who@);
                let seen = views(keys).subrange(0, i as int);
                assert(views(keys).subrange(0, i + 1) =~= seen.push(who@));
                assert forall|w: Seq<char>| seen.push(who@).contains(w) <==> seen.contains(w) || w
                    == who@ by {
                    if seen.contains(w) {
                        let k = choose|k: int| 0 <= k < seen.len() && seen[k] == w;
                        assert(seen.push(who@)[k] == w);
                    }
                    assert(seen.push(who@)[seen.len() as int] == who@);
                }
            }
            let _ = tally.insert(
                who,
                ExplorerRecord { discoveries: 0, landmarks_named: n, deepest_ring: 0 },
            );
            i = i + 1;
        }
        proof {
            self.namers.lemma_orders();
            assert(views(keys).subrange(0, i as int) =~= views(keys));
            assert forall|who: Seq<char>| #[trigger] tally@.contains_key(who) <==> explores(
                none,
                self.namers@,
                who,
            ) by {
                assert(self.namers@.contains_key(who) <==> views(keys).to_set().contains(who));
                assert(cells_of(none, who) =~= Set::empty());
            }
            assert forall|who: Seq<char>| #[trigger] tally@.contains_key(who) implies is_record(
                tally@[who],
                none,
                self.namers@,
                who,
            ) by {
                assert(cells_of(none, who) =~= Set::empty());
            }
        }
        tally
    }

    fn records(&self) -> (tally: SortedMap<PlayerId, ExplorerRecord>)
        requires
            self.wf(),
            forall|who: Seq<char>| #[trigger] cells_of(self.firsts(), who).len() <= u32::MAX,
        ensures
            tally.wf(),
            tallied(tally@, self.firsts(), self.namers@),
    {
        let mut tally = self.namer_records();
        let ghost keys = self.first_by.key_order();
        let ghost claims = self.first_by.value_order();
        let ghost all = self.firsts();
        let ghost mut part = Map::<CellId, DiscoveryView>::empty();
        let mut i: usize = 0;
        proof {
            self.first_by.lemma_orders();
        }
        while i < self.first_by.len()
            invariant
                i <= keys.len() == claims.len(),
                self.wf(),
                all == self.firsts(),
                keys == self.first_by.key_order(),
                claims == self.first_by.value_order(),
                forall|who: Seq<char>| #[trigger] cells_of(all, who).len() <= u32::MAX,
                tally.wf(),
                part.dom().finite(),
                forall|c: CellId| #[trigger]
                    part.contains_key(c) <==> views(keys).subrange(0, i as int).contains(c),
                forall|c: CellId| #[trigger]
                    part.contains_key(c) ==> all.contains_key(c) && part[c] == all[c],
                tallied(tally@, part, self.namers@),
            decreases keys.len() - i,
        {
            let cell: CellId = self.first_by.keys()[i];
            let d = &self.first_by.values()[i];
            proof {
                self.first_by.lemma_orders();
                assert(keys[i as int] == cell);
                assert(self.first_by@.contains_pair(keys[i as int]@, claims[i as int]));
                assert(all[cell] == d@);
                let seen = views(keys).subrange(0, i as int);
                assert(views(keys)[i as int] == cell);
                assert(!part.contains_key(cell)) by {
                    if seen.contains(cell) {
                        let k = choose|k: int| 0 <= k < seen.len() && seen[k] == cell;
                        assert(views(keys)[k] == views(keys)[i as int]);
                    }
                }
                assert(views(keys).subrange(0, i + 1) =~= seen.push(cell));
                assert forall|c: CellId| seen.push(cell).contains(c) <==> seen.contains(c) || c
                    == cell by {
                    if seen.contains(c) {
                        let k = choose|k: int| 0 <= k < seen.len() && seen[k] == c;
                        assert(seen.push(cell)[k] == c);
                    }
                    assert(seen.push(cell)[seen.len() as int] == cell);
                }
                let mine = cells_of(part, d.by@);
                let grown = cells_of(part.insert(cell, d@), d.by@);
                lemma_cells_insert(part, cell, d@, d.by@);
                vstd::set_lib::lemma_len_subset(mine, part.dom());
                assert(grown.subset_of(cells_of(all, d.by@)));
                assert(all.dom() =~= self.first_by@.dom());
                vstd::set_lib::lemma_len_subset(cells_of(all, d.by@), all.dom());
                vstd::set_lib::lemma_len_subset(grown, cells_of(all, d.by@));
                assert(grown.len() == mine.len() + 1);
                lemma_tally_step(tally@, part, self.namers@, cell, d@);
            }
            let mut r: ExplorerRecord = match tally.get(&d.by) {
                Some(r) => *r,
                None => ExplorerRecord::default(),
            };
            r.discoveries = r.discoveries + 1;
            if r.deepest_ring < d.ring {
                r.deepest_ring = d.ring;
            }
            let _ = tally.insert(d.by.clone(), r);
            proof {
                part = part.insert(cell, d@);
            }
            i = i + 1;
        }
        proof {
            self.first_by.lemma_orders();
            assert(views(keys).subrange(0, i as int) =~= views(keys));
            assert forall|c: CellId| part.contains_key(c) <==> all.contains_key(c) by {
                assert(self.first_by@.contains_key(c) <==> views(keys).to_set().contains(c));
            }
            assert(part =~= all);
        }
        tally
    }

    /// The explorers, by what they have charted, then by how deep they went, then by id. What is
    /// credited follows from who was first where, so the board does not depend on the order in which
    /// the claims of discovery came in.
    pub fn leaderboard(&self) -> (r: Vec<(PlayerId, ExplorerRecord)>)
        requires
            self.wf(),
            forall|who: Seq<char>| #[trigger] cells_of(self.firsts(), who).len() <= u32::MAX,
        ensures
            is_board(r@, self.firsts(), self.namers@),
    {
        let tally = self.records();
        let mut out: Vec<(PlayerId, ExplorerRecord)> = Vec::new();
        let mut i: usize = 0;
        proof {
            tally.lemma_orders();
        }
        let ghost keys = tally.key_order();
        let ghost records = tally.value_order();
        while i < tally.len()
            invariant
                i <= keys.len(),
                tally.wf(),
                keys == tally.key_order(),
                records == tally.value_order(),
                keys.len() == records.len(),
                out@.len() == i,
                forall|j: int| 0 <= j < i ==> #[trigger] out@[j] == (keys[j], records[j]),
            decreases keys.len() - i,
        {
            let who: PlayerId = tally.keys()[i].clone();
            let record: ExplorerRecord = tally.values()[i];
            out.push((who, record));
            i = i + 1;
        }
        let ghost listed = out@;
        let board = sort_stably(out);
        proof {
            lemma_board(board@, listed, keys, tally@, self.firsts(), self.namers@);
        }
        board
    }
}

proof fn lemma_board(
    board: Seq<(PlayerId, ExplorerRecord)>,
    listed: Seq<(PlayerId, ExplorerRecord)>,
    keys: Seq<PlayerId>,
    tally: Map<Seq<char>, ExplorerRecord>,
    firsts: Map<CellId, DiscoveryView>,
    namers: Map<Seq<char>, u32>,
)
    requires
        board == stably_sorted(listed),
        keys.len() == listed.len(),
        views(keys).no_duplicates(),
        tally.dom() == views(keys).to_set(),
        forall|j: int|
            #![trigger listed[j]]
            #![trigger keys[j]]
            0 <= j < listed.len() ==> listed[j].0 == keys[j] && tally.contains_pair(
                keys[j]@,
                listed[j].1,
            ),
        tallied(tally, firsts, namers),
    ensures
        is_board(board, firsts, namers),
{
    lemma_stably_sorted(listed);
    assert forall|i: int, j: int| 0 <= i < j < listed.len() implies (#[trigger] listed[i]).0@ != (
    #[trigger] listed[j]).0@ by {
        assert(views(keys)[i] != views(keys)[j]);
    }
    assert(listed.no_duplicates());
    listed.lemma_multiset_has_no_duplicates();
    board.lemma_multiset_has_no_duplicates_conv();
    assert forall|i: int, j: int| 0 <= i < j < board.len() implies (#[trigger] board[i]).0@ != (
    #[trigger] board[j]).0@ by {
        lemma_sorted_contains(listed, board[i]);
        lemma_sorted_contains(listed, board[j]);
        let x = choose|x: int| 0 <= x < listed.len() && listed[x] == board[i];
        let y = choose|y: int| 0 <= y < listed.len() && listed[y] == board[j];
        assert(board[i] != board[j]);
        assert(listed[x].0@ == board[i].0@ && listed[y].0@ == board[j].0@);
    }
    assert forall|who: Seq<char>| #[trigger] on_board(board, who) <==> explores(
        firsts,
        namers,
        who,
    ) by {
        assert(tally.contains_key(who) <==> explores(firsts, namers, who));
        if on_board(board, who) {
            let i = choose|i: int| 0 <= i < board.len() && (#[trigger] board[i]).0@ == who;
            lemma_sorted_contains(listed, board[i]);
            let x = choose|x: int| 0 <= x < listed.len() && listed[x] == board[i];
            assert(tally.contains_pair(keys[x]@, listed[x].1));
        }
        if tally.contains_key(who) {
            assert(views(keys).contains(who));
            let x = choose|x: int| 0 <= x < views(keys).len() && views(keys)[x] == who;
            assert(listed[x].0 == keys[x]);
            lemma_sorted_contains(listed, listed[x]);
            let i = choose|i: int| 0 <= i < board.len() && board[i] == listed[x];
            assert(board[i].0@ == who);
        }
    }
    assert forall|i: int| 0 <= i < board.len() implies is_record(
        (#[trigger] board[i]).1,
        firsts,
        namers,
        board[i].0@,
    ) by {
        lemma_sorted_contains(listed, board[i]);
        let x = choose|x: int| 0 <= x < listed.len() && listed[x] == board[i];
        assert(tally.contains_pair(keys[x]@, listed[x].1));
        assert(tally.contains_key(keys[x]@));
    }
}

/// Claims of one player for one cell in one epoch tell of the same ring.
pub open spec fn agreeing(claims: Seq<DiscoveryView>) -> bool {
    forall|i: int, j: int|
        0 <= i < claims.len() && 0 <= j < claims.len() && (#[trigger] claims[i]).cell == (
        #[trigger] claims[j]).cell && claims[i].epoch == claims[j].epoch && claims[i].by
            == claims[j].by ==> claims[i].ring == claims[j].ring
}

proof fn lemma_precedes(a: DiscoveryView, b: DiscoveryView, c: DiscoveryView)
    ensures
        !precedes(a, a),
        !precedes(a, b) && !precedes(b, a) ==> a.epoch == b.epoch && a.by == b.by,
        !precedes(a, b) && precedes(c, b) ==> !precedes(a, c),
{
    lemma_text_order(a.by, b.by, c.by);
    lemma_text_order(a.by, c.by, b.by);
    lemma_text_order(b.by, a.by, c.by);
    lemma_text_order(b.by, c.by, a.by);
    lemma_text_order(c.by, b.by, a.by);
    lemma_text_order(c.by, a.by, b.by);
    lemma_text_order(a.by, a.by, a.by);
}

/// What is recorded for a cell is one of its claims, and none of them precedes it: the first claim wins,
/// whenever it comes in.
pub proof fn law_first_claim_wins(claims: Seq<DiscoveryView>, cell: CellId)
    ensures
        recorded(claims).contains_key(cell) <==> exists|i: int|
            0 <= i < claims.len() && (#[trigger] claims[i]).cell == cell,
        recorded(claims).contains_key(cell) ==> recorded(claims)[cell].cell == cell
            && claims.contains(recorded(claims)[cell]),
        forall|i: int|
            0 <= i < claims.len() && (#[trigger] claims[i]).cell == cell ==> !precedes(
                claims[i],
                recorded(claims)[cell],
            ),
    decreases claims.len(),
{
    if claims.len() > 0 {
        let rest = claims.drop_last();
        let d = claims.last();
        law_first_claim_wins(rest, cell);
        assert(claims[claims.len() - 1] == d);
        let was = recorded(rest);
        let now = recorded(claims);
        if now.contains_key(cell) {
            if was.contains_key(cell) && now[cell] == was[cell] {
                let i = choose|i: int| 0 <= i < rest.len() && rest[i] == was[cell];
                assert(claims[i] == rest[i]);
            }
            assert(claims.contains(now[cell]));
        }
        if was.contains_key(cell) {
            let i = choose|i: int| 0 <= i < rest.len() && (#[trigger] rest[i]).cell == cell;
            assert(claims[i].cell == cell);
        }
        assert forall|i: int| 0 <= i < claims.len() && (#[trigger] claims[i]).cell
            == cell implies !precedes(claims[i], now[cell]) by {
            if i < rest.len() {
                assert(rest[i].cell == cell);
                lemma_precedes(claims[i], was[cell], now[cell]);
            } else if now[cell] == d {
                lemma_precedes(d, d, d);
            }
        }
        if exists|i: int| 0 <= i < claims.len() && (#[trigger] claims[i]).cell == cell {
            let i = choose|i: int| 0 <= i < claims.len() && (#[trigger] claims[i]).cell == cell;
            if i < rest.len() {
                assert(rest[i].cell == cell);
            }
        }
    }
}

/// The same claims settle who was first in the same way, in whatever order they come in and however
/// often. Claims of one player for one cell in one epoch must tell of the same ring.
pub proof fn law_claims_settle_alike(a: Seq<DiscoveryView>, b: Seq<DiscoveryView>)
    requires
        a.to_set() == b.to_set(),
        agreeing(a),
    ensures
        recorded(a) == recorded(b),
{
    assert forall|d: DiscoveryView| #[trigger] a.contains(d) <==> b.contains(d) by {
        assert(a.to_set().contains(d) <==> a.contains(d));
        assert(b.to_set().contains(d) <==> b.contains(d));
    }
    assert forall|cell: CellId| recorded(a).contains_key(cell) <==> recorded(b).contains_key(
        cell,
    ) by {
        law_first_claim_wins(a, cell);
        law_first_claim_wins(b, cell);
        if recorded(a).contains_key(cell) {
            let d = recorded(a)[cell];
            assert(b.contains(d));
            let j = choose|j: int| 0 <= j < b.len() && b[j] == d;
            assert(b[j].cell == cell);
        }
        if recorded(b).contains_key(cell) {
            let d = recorded(b)[cell];
            assert(a.contains(d));
            let j = choose|j: int| 0 <= j < a.len() && a[j] == d;
            assert(a[j].cell == cell);
        }
    }
    assert forall|cell: CellId| recorded(a).contains_key(cell) implies recorded(a)[cell]
        == recorded(b)[cell] by {
        law_first_claim_wins(a, cell);
        law_first_claim_wins(b, cell);
        let x = recorded(a)[cell];
        let y = recorded(b)[cell];
        assert(b.contains(x) && a.contains(y));
        let i = choose|i: int| 0 <= i < b.len() && b[i] == x;
        let j = choose|j: int| 0 <= j < a.len() && a[j] == y;
        let k = choose|k: int| 0 <= k < a.len() && a[k] == x;
        assert(b[i].cell == cell && a[j].cell == cell && a[k].cell == cell);
        lemma_precedes(x, y, x);
    }
    assert(recorded(a) =~= recorded(b));
}

impl Ordered for (PlayerId, ExplorerRecord) {
    open spec fn below(a: (Seq<char>, ExplorerRecord), b: (Seq<char>, ExplorerRecord)) -> bool {
        outranks(a, b) || (!outranks(b, a) && a.1.landmarks_named < b.1.landmarks_named)
    }

    fn is_below(&self, other: &Self) -> (r: bool) {
        self.goes_before(other) || (!other.goes_before(self) && self.1.landmarks_named
            < other.1.landmarks_named)
    }

    proof fn below_irreflexive(a: (Seq<char>, ExplorerRecord)) {
        lemma_text_order(a.0, a.0, a.0);
    }

    proof fn below_transitive(
        a: (Seq<char>, ExplorerRecord),
        b: (Seq<char>, ExplorerRecord),
        c: (Seq<char>, ExplorerRecord),
    ) {
        lemma_text_order(a.0, b.0, c.0);
        lemma_text_order(a.0, c.0, b.0);
        lemma_text_order(b.0, a.0, c.0);
        lemma_text_order(b.0, c.0, a.0);
        lemma_text_order(c.0, b.0, a.0);
        lemma_text_order(c.0, a.0, b.0);
    }

    proof fn below_total(a: (Seq<char>, ExplorerRecord), b: (Seq<char>, ExplorerRecord)) {
        lemma_text_order(a.0, b.0, a.0);
    }
}

proof fn lemma_same_explorer(
    s: Seq<(PlayerId, ExplorerRecord)>,
    t: Seq<(PlayerId, ExplorerRecord)>,
    firsts: Map<CellId, DiscoveryView>,
    namers: Map<Seq<char>, u32>,
    v: (Seq<char>, ExplorerRecord),
)
    requires
        is_board(s, firsts, namers),
        is_board(t, firsts, namers),
        views(s).contains(v),
    ensures
        views(t).contains(v),
{
    let i = choose|i: int| 0 <= i < views(s).len() && views(s)[i] == v;
    assert(s[i]@ == v);
    let who = s[i].0@;
    assert(on_board(s, who));
    assert(explores(firsts, namers, who));
    assert(on_board(t, who));
    let j = choose|j: int| 0 <= j < t.len() && (#[trigger] t[j]).0@ == who;
    assert(is_record(s[i].1, firsts, namers, who));
    assert(is_record(t[j].1, firsts, namers, who));
    assert(s[i].1.deepest_ring == t[j].1.deepest_ring);
    assert(views(t)[j] == v);
}

proof fn lemma_board_ascends(
    s: Seq<(PlayerId, ExplorerRecord)>,
    firsts: Map<CellId, DiscoveryView>,
    namers: Map<Seq<char>, u32>,
)
    requires
        is_board(s, firsts, namers),
    ensures
        ascending(s),
{
    assert forall|i: int, j: int| 0 <= i < j < s.len() implies #[trigger] <(
        PlayerId,
        ExplorerRecord,
    )>::below(s[i]@, s[j]@) by {
        assert(!s[j].before(&s[i]));
        assert(s[i].0@ != s[j].0@);
        lemma_text_order(s[i].0@, s[j].0@, s[i].0@);
    }
}

/// The board is a function of who was first where and of how many features each player has named.
pub proof fn law_board_follows_first_claims(
    s: Seq<(PlayerId, ExplorerRecord)>,
    t: Seq<(PlayerId, ExplorerRecord)>,
    firsts: Map<CellId, DiscoveryView>,
    namers: Map<Seq<char>, u32>,
)
    requires
        is_board(s, firsts, namers),
        is_board(t, firsts, namers),
    ensures
        views(s) == views(t),
{
    assert forall|v: (Seq<char>, ExplorerRecord)| #[trigger] views(s).contains(v) <==> views(
        t,
    ).contains(v) by {
        if views(s).contains(v) {
            lemma_same_explorer(s, t, firsts, namers, v);
        }
        if views(t).contains(v) {
            lemma_same_explorer(t, s, firsts, namers, v);
        }
    }
    lemma_board_ascends(s, firsts, namers);
    lemma_board_ascends(t, firsts, namers);
    lemma_ascending_unique(s, t);
}

/// The board does not depend on the order in which the claims of discovery come in, and anybody can
/// reproduce it from the same claims.
pub proof fn law_board_order_independent(
    a: Seq<DiscoveryView>,
    b: Seq<DiscoveryView>,
    namers: Map<Seq<char>, u32>,
    s: Seq<(PlayerId, ExplorerRecord)>,
    t: Seq<(PlayerId, ExplorerRecord)>,
)
    requires
        a.to_set() == b.to_set(),
        agreeing(a),
        is_board(s, recorded(a), namers),
        is_board(t, recorded(b), namers),
    ensures
        views(s) == views(t),
{
    law_claims_settle_alike(a, b);
    law_board_follows_first_claims(s, t, recorded(a), namers);
}

/// Whoever entered a cell in the earliest epoch found it; of several in one epoch the one whose name comes first.
pub proof fn law_earliest_entry_wins(claims: Seq<DiscoveryView>, cell: CellId, i: int)
    requires
        0 <= i < claims.len(),
        claims[i].cell == cell,
    ensures
        recorded(claims).contains_key(cell),
        recorded(claims)[cell].epoch <= claims[i].epoch,
        recorded(claims)[cell].epoch == claims[i].epoch ==> !text_below(
            claims[i].by,
            recorded(claims)[cell].by,
        ),
        claims.contains(recorded(claims)[cell]),
{
    law_first_claim_wins(claims, cell);
    assert(!precedes(claims[i], recorded(claims)[cell]));
}

/// How the board ranks: more discoveries first; of as many, the one who went deeper; then by name. What it says of an
/// explorer is counted: one discovery for each cell that they were the first in, and the deepest ring of those.
pub proof fn law_board_ranks_by_discoveries(
    board: Seq<(PlayerId, ExplorerRecord)>,
    firsts: Map<CellId, DiscoveryView>,
    namers: Map<Seq<char>, u32>,
    i: int,
    j: int,
    c: CellId,
)
    requires
        is_board(board, firsts, namers),
        0 <= i < j < board.len(),
    ensures
        board[i].1.discoveries >= board[j].1.discoveries,
        board[i].1.discoveries == board[j].1.discoveries ==> board[i].1.deepest_ring
            >= board[j].1.deepest_ring,
        board[i].1.discoveries == board[j].1.discoveries && board[i].1.deepest_ring
            == board[j].1.deepest_ring ==> text_below(board[i].0@, board[j].0@),
        firsts.contains_key(c) && firsts[c].by == board[i].0@ ==> firsts[c].ring
            <= board[i].1.deepest_ring,
        board[i].1.discoveries == firsts.dom().filter(
            |x: CellId| firsts[x].by == board[i].0@,
        ).len(),
{
    assert(!board[j].before(&board[i]));
    assert(board[i].0@ != board[j].0@);
    lemma_text_order(board[i].0@, board[j].0@, board[i].0@);
    assert(is_record(board[i].1, firsts, namers, board[i].0@));
    assert(cells_of(firsts, board[i].0@) =~= firsts.dom().filter(
        |x: CellId| firsts[x].by == board[i].0@,
    ));
    if firsts.contains_key(c) && firsts[c].by == board[i].0@ {
        assert(cells_of(firsts, board[i].0@).contains(c));
    }
}

/// Everybody who was the first somewhere, or has named something, is on the board, once; and nobody else is.
pub proof fn law_every_explorer_is_on_the_board(
    board: Seq<(PlayerId, ExplorerRecord)>,
    firsts: Map<CellId, DiscoveryView>,
    namers: Map<Seq<char>, u32>,
    c: CellId,
    who: Seq<char>,
)
    requires
        is_board(board, firsts, namers),
    ensures
        firsts.contains_key(c) ==> exists|i: int|
            0 <= i < board.len() && (#[trigger] board[i]).0@ == firsts[c].by,
        namers.contains_key(who) ==> exists|i: int|
            0 <= i < board.len() && (#[trigger] board[i]).0@ == who,
        (forall|x: CellId| firsts.contains_key(x) ==> (#[trigger] firsts[x]).by != who)
            && !namers.contains_key(who) ==> forall|i: int|
            0 <= i < board.len() ==> (#[trigger] board[i]).0@ != who,
{
    if firsts.contains_key(c) {
        assert(cells_of(firsts, firsts[c].by).contains(c));
        assert(explores(firsts, namers, firsts[c].by));
        assert(on_board(board, firsts[c].by));
    }
    if namers.contains_key(who) {
        assert(explores(firsts, namers, who));
        assert(on_board(board, who));
    }
    if (forall|x: CellId| firsts.contains_key(x) ==> (#[trigger] firsts[x]).by != who)
        && !namers.contains_key(who) {
        assert(!explores(firsts, namers, who));
        assert(!on_board(board, who));
        assert forall|i: int| 0 <= i < board.len() implies (#[trigger] board[i]).0@ != who by {
        }
    }
}

/// A charted cell is at the edge exactly where one of the cells around it, straight or across, is still void.
pub proof fn law_edge_borders_the_void(charted: Set<CellId>, c: CellId)
    requires
        c.valid(),
    ensures
        at_edge(charted, c) <==> exists|d: CellId| #[trigger]
            d.valid() && d.depth == c.depth && d != c && -1 <= d.x - c.x <= 1 && -1 <= d.y - c.y <= 1
                && !charted.contains(d),
{
    if at_edge(charted, c) {
        let i = choose|i: int|
            0 <= i < ring_of(c).len() && !charted.contains(#[trigger] ring_of(c)[i]);
        let d = ring_of(c)[i];
        assert(ring_of(c).contains(d));
        crate::galaxy::lemma_ring_valid(c, d);
        crate::galaxy::law_ring(c, d);
        assert(d.valid());
    }
    if exists|d: CellId| #[trigger]
        d.valid() && d.depth == c.depth && d != c && -1 <= d.x - c.x <= 1 && -1 <= d.y - c.y <= 1
            && !charted.contains(d) {
        let d = choose|d: CellId| #[trigger]
            d.valid() && d.depth == c.depth && d != c && -1 <= d.x - c.x <= 1 && -1 <= d.y - c.y <= 1
                && !charted.contains(d);
        crate::galaxy::law_ring(c, d);
        let i = choose|i: int| 0 <= i < ring_of(c).len() && ring_of(c)[i] == d;
        assert(!charted.contains(ring_of(c)[i]));
    }
}

/// What an explorer has named is counted apart from what they have found, and the deepest ring is one that they were the first in.
pub proof fn law_records(
    r: ExplorerRecord,
    firsts: Map<CellId, DiscoveryView>,
    namers: Map<Seq<char>, u32>,
    who: Seq<char>,
)
    requires
        is_record(r, firsts, namers, who),
    ensures
        namers.contains_key(who) ==> r.landmarks_named == namers[who],
        !namers.contains_key(who) ==> r.landmarks_named == 0,
        r.deepest_ring == 0 || exists|c: CellId| #[trigger]
            firsts.contains_key(c) && firsts[c].by == who && firsts[c].ring == r.deepest_ring,
{
    if r.deepest_ring != 0 {
        let c = choose|c: CellId| #[trigger]
            cells_of(firsts, who).contains(c) && firsts[c].ring == r.deepest_ring;
        assert(firsts.contains_key(c) && firsts[c].by == who);
    }
}

/// A claim takes a cell that nobody has claimed, or that was claimed later, or in the same epoch by somebody whose name comes later; any other claim changes
/// nothing, and no claim touches another cell.
pub proof fn law_claims(firsts: Map<CellId, DiscoveryView>, d: DiscoveryView, other: CellId)
    requires
        other != d.cell,
    ensures
        !firsts.contains_key(d.cell) ==> first_after(firsts, d).contains_pair(d.cell, d),
        firsts.contains_key(d.cell) && d.epoch < firsts[d.cell].epoch ==> first_after(
            firsts,
            d,
        ).contains_pair(d.cell, d),
        firsts.contains_key(d.cell) && d.epoch > firsts[d.cell].epoch ==> first_after(firsts, d) == firsts,
        firsts.contains_key(d.cell) && d.epoch == firsts[d.cell].epoch ==> (first_after(firsts, d)
            == firsts || text_below(d.by, firsts[d.cell].by)),
        first_after(firsts, d).contains_key(other) <==> firsts.contains_key(other),
        firsts.contains_key(other) ==> first_after(firsts, d)[other] == firsts[other],
{
}

} // verus!
