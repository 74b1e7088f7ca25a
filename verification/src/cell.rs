//! What a node keeps for a cell that it hosts: the load that it measures, and what it does when the
//! cell is reshaped.
use vstd::prelude::*;

use crate::galaxy::{children_of, token_of, CellId, CellLoad};
use crate::galaxywire::topics;
use crate::galaxywire::topics::cell_topic;
use crate::galaxywire::{LoadFrame, ShapeOp};
use crate::order::views;
use crate::sort::{lemma_stably_sorted, sort_stably, stably_sorted, Ranked};

verus! {

/// How many ticks are looked back on.
pub const WINDOW: usize = 256;

impl Ranked for u32 {
    open spec fn before(&self, other: &Self) -> bool {
        *self < *other
    }

    fn goes_before(&self, other: &Self) -> (r: bool) {
        *self < *other
    }

    proof fn before_asymmetric(a: &Self, b: &Self) {
    }

    proof fn before_negatively_transitive(a: &Self, b: &Self, c: &Self) {
    }
}

/// The durations of the latest ticks, in microseconds.
#[derive(Debug)]
pub struct TickMeter {
    pub samples: Vec<u32>,
}

/// The latest durations with one more.
pub open spec fn windowed(samples: Seq<u32>, micros: u32) -> Seq<u32> {
    if samples.len() == WINDOW {
        samples.subrange(1, samples.len() as int).push(micros)
    } else {
        samples.push(micros)
    }
}

/// The duration that 99 of 100 ticks do not exceed; 0 while there is none.
pub open spec fn tail_of(samples: Seq<u32>) -> u32 {
    if samples.len() == 0 {
        0
    } else {
        stably_sorted(samples)[(samples.len() * 99 / 100) as int]
    }
}

impl TickMeter {
    pub open spec fn wf(&self) -> bool {
        self.samples@.len() <= WINDOW
    }

    pub fn new() -> (m: Self)
        ensures
            m.wf(),
            m.samples@ == Seq::<u32>::empty(),
    {
        TickMeter { samples: Vec::new() }
    }

    /// Takes a duration in. The oldest one goes where the window is full.
    pub fn record(&mut self, micros: u32)
        requires
            old(self).wf(),
        ensures
            final(self).wf(),
            final(self).samples@ == windowed(old(self).samples@, micros),
    {
        if self.samples.len() == WINDOW {
            self.samples.remove(0);
            assert(self.samples@ =~= old(self).samples@.subrange(1, WINDOW as int));
        }
        self.samples.push(micros);
    }

    /// The 99th percentile of the window.
    pub fn p99(&self) -> (v: u32)
        requires
            self.wf(),
        ensures
            v == tail_of(self.samples@),
    {
        if self.samples.len() == 0 {
            return 0;
        }
        let mut copy: Vec<u32> = Vec::new();
        let mut i: usize = 0;
        while i < self.samples.len()
            invariant
                i <= self.samples@.len(),
                copy@ == self.samples@.subrange(0, i as int),
            decreases self.samples@.len() - i,
        {
            copy.push(self.samples[i]);
            i = i + 1;
            assert(copy@ =~= self.samples@.subrange(0, i as int));
        }
        assert(copy@ =~= self.samples@);
        let n: usize = copy.len();
        let sorted = sort_stably(copy);
        proof {
            lemma_stably_sorted(self.samples@);
        }
        sorted[n * 99 / 100]
    }
}

/// No more than one tick in a hundred, rounded up, takes longer than the 99th percentile.
pub proof fn law_p99_bounds_the_window(samples: Seq<u32>)
    requires
        samples.len() > 0,
    ensures
        samples.contains(tail_of(samples)),
        forall|i: int|
            0 <= i <= samples.len() * 99 / 100 ==> #[trigger] stably_sorted(samples)[i] <= tail_of(
                samples,
            ),
{
    lemma_stably_sorted(samples);
    let s = stably_sorted(samples);
    let k = (samples.len() * 99 / 100) as int;
    assert(0 <= k < s.len());
    assert(s.contains(s[k]));
    crate::sort::lemma_sorted_contains(samples, s[k]);
    assert forall|i: int| 0 <= i <= k implies #[trigger] s[i] <= s[k] by {
        if i < k {
            assert(!s[k].before(&s[i]));
        }
    }
}

/// What a host does about a reshape of its cell.
#[derive(Debug, PartialEq)]
pub enum CellTransition {
    /// The reshape is of another cell.
    Stay,
    /// Snapshot, deal the entities out to four children on these hosts, and stop.
    SplitInto { children: [CellId; 4], hosts: Vec<String> },
    /// Snapshot, and hand the entities up to the parent.
    MergeUp { parent: CellId },
    /// Let another host adopt the snapshot, and stop.
    HandOff { to: String, snapshot: String },
}

/// The transition is the one that a reshape asks of a cell.
pub open spec fn is_reaction(t: CellTransition, cell: CellId, op: ShapeOp) -> bool {
    match op {
        ShapeOp::Split { cell: c, children, place_on, from_snapshot } if c == cell => t
            matches CellTransition::SplitInto { children: k, hosts } && k == children && views(
            hosts@,
        ) == views(place_on@),
        ShapeOp::Merge { parent, from_snapshots, place_on } if children_of(parent).contains(
            cell,
        ) => t == (CellTransition::MergeUp { parent }),
        ShapeOp::Migrate { cell: c, from, to, snapshot } if c == cell => t
            matches CellTransition::HandOff { to: n, snapshot: s } && n@ == to@ && s@ == snapshot@,
        _ => t == CellTransition::Stay,
    }
}

/// A hosted cell. `S` is its simulation.
pub struct CellRuntime<S> {
    pub cell: CellId,
    pub sim: S,
    pub host_id: String,
    pub tick: TickMeter,
    pub bandwidth_bps: u64,
    pub epoch: u64,
}

impl<S> CellRuntime<S> {
    pub open spec fn wf(&self) -> bool {
        self.tick.wf()
    }

    pub fn new(cell: CellId, sim: S, host_id: String) -> (r: Self)
        ensures
            r.wf(),
            r.cell == cell,
            r.sim == sim,
            r.host_id == host_id,
            r.tick.samples@ == Seq::<u32>::empty(),
            r.bandwidth_bps == 0,
            r.epoch == 0,
    {
        CellRuntime { cell, sim, host_id, tick: TickMeter::new(), bandwidth_bps: 0, epoch: 0 }
    }

    /// Takes in what was measured in a tick: how long it took, and how many bytes go out per second.
    pub fn measure(&mut self, tick_micros: u32, bandwidth_bps: u64, epoch: u64)
        requires
            old(self).wf(),
        ensures
            final(self).wf(),
            final(self).cell == old(self).cell,
            final(self).sim == old(self).sim,
            final(self).host_id == old(self).host_id,
            final(self).tick.samples@ == windowed(old(self).tick.samples@, tick_micros),
            final(self).bandwidth_bps == bandwidth_bps,
            final(self).epoch == epoch,
    {
        self.tick.record(tick_micros);
        self.bandwidth_bps = bandwidth_bps;
        self.epoch = epoch;
    }

    /// The frame to publish: all that a controller needs to decide.
    pub fn load_frame(&self, players: u32, entities: u32) -> (f: LoadFrame)
        requires
            self.wf(),
        ensures
            f.cell == self.cell,
            f.host@ == self.host_id@,
            f.load == (CellLoad {
                players,
                entities,
                tick_p99_us: tail_of(self.tick.samples@),
                bandwidth_bps: self.bandwidth_bps,
                epoch: self.epoch,
            }),
    {
        LoadFrame {
            cell: self.cell,
            host: self.host_id.clone(),
            load: CellLoad {
                players,
                entities,
                tick_p99_us: self.tick.p99(),
                bandwidth_bps: self.bandwidth_bps,
                epoch: self.epoch,
            },
        }
    }

    /// Where the frame is published.
    pub fn load_topic(&self) -> (s: String)
        ensures
            s@ == cell_topic(token_of(self.cell), "/load"@),
    {
        topics::load(self.cell.token().as_str())
    }

    /// What to do about a committed reshape.
    pub fn on_shape(&self, op: &ShapeOp) -> (t: CellTransition)
        requires
            op matches ShapeOp::Merge { parent, from_snapshots, place_on } ==> parent.divisible(),
        ensures
            is_reaction(t, self.cell, *op),
    {
        match op {
            ShapeOp::Split { cell, children, place_on, from_snapshot } => {
                if *cell == self.cell {
                    let mut hosts: Vec<String> = Vec::new();
                    hosts.push(place_on[0].clone());
                    hosts.push(place_on[1].clone());
                    hosts.push(place_on[2].clone());
                    hosts.push(place_on[3].clone());
                    assert(views(hosts@) =~= views(place_on@));
                    return CellTransition::SplitInto { children: *children, hosts };
                }
            },
            ShapeOp::Merge { parent, from_snapshots, place_on } => {
                let siblings = parent.children();
                let mut i: usize = 0;
                while i < siblings.len()
                    invariant
                        i <= siblings@.len(),
                        siblings@ == children_of(*parent),
                        forall|j: int| 0 <= j < i ==> #[trigger] siblings@[j] != self.cell,
                        op matches ShapeOp::Merge { parent: p, from_snapshots, place_on } && p
                            == *parent,
                    decreases siblings@.len() - i,
                {
                    if siblings[i] == self.cell {
                        assert(siblings@.contains(self.cell));
                        return CellTransition::MergeUp { parent: *parent };
                    }
                    i = i + 1;
                }
                assert(!siblings@.contains(self.cell));
            },
            ShapeOp::Place { cell, node, from_snapshot } => {},
            ShapeOp::Migrate { cell, from, to, snapshot } => {
                if *cell == self.cell {
                    return CellTransition::HandOff { to: to.clone(), snapshot: snapshot.clone() };
                }
            },
        }
        CellTransition::Stay
    }
}

/// The window keeps the last 256 measurements in their order: the new one comes last, and only a full window forgets
/// one, the oldest.
pub proof fn law_window_slides(samples: Seq<u32>, micros: u32)
    requires
        samples.len() <= 256,
    ensures
        windowed(samples, micros).last() == micros,
        samples.len() < 256 ==> windowed(samples, micros).drop_last() == samples,
        samples.len() == 256 ==> windowed(samples, micros).len() == 256 && windowed(samples, micros)
            == (samples.push(micros)).subrange(1, 257),
{
    assert(samples.len() < 256 ==> windowed(samples, micros).drop_last() =~= samples);
    assert(samples.len() == 256 ==> windowed(samples, micros) =~= (samples.push(micros)).subrange(
        1,
        257,
    ));
}

/// The 99th percentile is one of the measurements, and of hundred equal parts of the sorted window 99 lie before it; it
/// does not depend on the order in which they came.
pub proof fn law_p99_is_a_measurement(samples: Seq<u32>, i: int)
    requires
        samples.len() > 0,
        0 <= i < samples.len(),
    ensures
        samples.contains(tail_of(samples)),
        100 * i <= 99 * samples.len() ==> stably_sorted(samples)[i] <= tail_of(samples),
        100 * i >= 99 * samples.len() ==> stably_sorted(samples)[i] >= tail_of(samples),
        tail_of(Seq::empty()) == 0,
{
    crate::sort::lemma_stably_sorted(samples);
    let s = stably_sorted(samples);
    let k = (samples.len() * 99 / 100) as int;
    assert(0 <= k < samples.len());
    assert(s.contains(s[k]));
    crate::sort::lemma_sorted_contains(samples, s[k]);
    if i < k {
        assert(!s[k].before(&s[i]));
    }
    if k < i {
        assert(!s[i].before(&s[k]));
    }
}

/// A cell is moved by a reshape exactly when it is the one that is split or handed over, or one of the four below the parent that is merged; it then goes on
/// in what the reshape names.
pub proof fn law_who_is_moved(t: CellTransition, cell: CellId, op: ShapeOp)
    requires
        is_reaction(t, cell, op),
        cell.depth > 0 ==> cell.depth <= crate::galaxy::MAX_DEPTH,
        op matches ShapeOp::Merge { parent, from_snapshots, place_on } ==> parent.x < 0x7fff_ffff && parent.y
            < 0x7fff_ffff,
    ensures
        t is SplitInto <==> op is Split && op->Split_cell == cell,
        t is SplitInto ==> t->children == op->Split_children && t->hosts@.len() == op->Split_place_on@.len(),
        t is SplitInto ==> forall|i: int|
            0 <= i < t->hosts@.len() ==> (#[trigger] t->hosts@[i])@ == op->Split_place_on@[i]@,
        t is HandOff <==> op is Migrate && op->Migrate_cell == cell,
        t is HandOff ==> t->to@ == op->Migrate_to@ && t->snapshot@ == op->Migrate_snapshot@,
        t is MergeUp <==> op is Merge && cell.depth > 0 && op->Merge_parent.depth + 1 == cell.depth && op->Merge_parent.x
            == cell.x / 2 && op->Merge_parent.y == cell.y / 2,
        t is MergeUp ==> t->parent == op->Merge_parent,
        op is Place ==> t is Stay,
{
    if t is SplitInto {
        let (given, taken) = (op->Split_place_on@, t->hosts@);
        assert(views(taken).len() == taken.len() && views(given).len() == given.len());
        assert forall|i: int| 0 <= i < taken.len() implies (#[trigger] taken[i])@ == given[i]@ by {
            assert(views(taken)[i] == taken[i]@ && views(given)[i] == given[i]@);
        }
    }
    if let ShapeOp::Merge { parent, from_snapshots, place_on } = op {
        let c = children_of(parent);
        if c.contains(cell) {
            let k = choose|k: int| 0 <= k < c.len() && c[k] == cell;
            assert(c[0] == crate::galaxy::child_of(parent, 0, 0) && c[1] == crate::galaxy::child_of(parent, 1, 0));
            assert(c[2] == crate::galaxy::child_of(parent, 0, 1) && c[3] == crate::galaxy::child_of(parent, 1, 1));
            assert(k == 0 || k == 1 || k == 2 || k == 3);
        } else if cell.depth > 0 && parent.depth + 1 == cell.depth && parent.x == cell.x / 2 && parent.y
            == cell.y / 2 {
            let (i, j) = (cell.x % 2, cell.y % 2);
            assert(cell.x == 2 * parent.x + i && cell.y == 2 * parent.y + j);
            assert(c[(i + 2 * j) as int] == cell);
        }
    }
}

} // verus!
