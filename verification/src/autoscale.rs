//! The autoscaler: one control pass decides which leaves split and merge and when the fleet grows or
//! shrinks.
//!
//! A pass is a function of what was observed and of two small memories that keep it from acting on
//! noise: how long a cell has wanted the same thing, and when a region last asked for nodes.
use vstd::prelude::*;
use vstd::string::*;

use crate::fleet::{
    budget_sum, count_of, free_slots_of, free_sum, ids, is_best, lemma_sums, roomier_than, seats_another,
    slots_tighter_than, takes_cell, tighter_than, Fleet, HostNode, NodeId, RegionHint,
};
use crate::galaxy::{children_of, parent_of, CellId, CellLoad, Galaxy, ScalePolicy, Verdict};
use crate::order::{views, Ordered, SortedMap, SortedSet};
use crate::sort::lemma_filter_push;
use crate::text::same_text;

verus! {

/// A host above this load, in thousandths, sheds cells.
pub const SHED_PERMILLE: u32 = 900;

/// One thing that a pass decides.
#[derive(Debug, PartialEq)]
#[allow(inconsistent_fields)]
pub enum ScaleAction {
    /// A hot leaf splits into four children, each placed on a host.
    Split { cell: CellId, place_on: [NodeId; 4] },
    /// Four cold siblings collapse into their parent, on one host.
    Merge { parent: CellId, place_on: NodeId },
    /// A leaf is homed on a host.
    Place { cell: CellId, node: NodeId },
    /// A leaf moves from one host to another.
    Migrate { cell: CellId, from: NodeId, to: NodeId },
    /// Fresh cloud nodes are wanted near a region.
    Burst { count: usize, region: RegionHint },
    /// An idle rented node is given back.
    Retire { node: NodeId },
}

/// An action with texts in place of strings.
#[allow(inconsistent_fields)]
pub enum ActionView {
    Split { cell: CellId, place_on: Seq<Seq<char>> },
    Merge { parent: CellId, place_on: Seq<char> },
    Place { cell: CellId, node: Seq<char> },
    Migrate { cell: CellId, from: Seq<char>, to: Seq<char> },
    Burst { count: usize, region: Seq<char> },
    Retire { node: Seq<char> },
}

impl View for ScaleAction {
    type V = ActionView;

    open spec fn view(&self) -> ActionView {
        match *self {
            ScaleAction::Split { cell, place_on } => ActionView::Split {
                cell,
                place_on: ids(place_on@),
            },
            ScaleAction::Merge { parent, place_on } => ActionView::Merge {
                parent,
                place_on: place_on@,
            },
            ScaleAction::Place { cell, node } => ActionView::Place { cell, node: node@ },
            ScaleAction::Migrate { cell, from, to } => ActionView::Migrate {
                cell,
                from: from@,
                to: to@,
            },
            ScaleAction::Burst { count, region } => ActionView::Burst { count, region: region@ },
            ScaleAction::Retire { node } => ActionView::Retire { node: node@ },
        }
    }
}

/// Knobs of the control loop.
#[derive(Debug, Clone, Copy, PartialEq, Eq, Structural)]
pub struct AutoscalePolicy {
    pub scale: ScalePolicy,
    /// More nodes are asked for while fewer than this many thousandths of the slots are free.
    pub burst_below_permille: u32,
    /// Rented nodes are given back while more than this many thousandths of the slots are free.
    pub retire_above_permille: u32,
    /// The most nodes that one pass asks for.
    pub max_burst_per_pass: usize,
    /// Epochs between two bursts in one region.
    pub burst_cooldown_epochs: u8,
}

impl Default for AutoscalePolicy {
    fn default() -> (p: Self)
        ensures
            p.scale == (ScalePolicy {
                split_players: 150,
                split_entities: 4_000,
                split_tick_us: 35_000,
                split_bandwidth_bps: 12_000_000,
                merge_percent: 30,
                dwell_epochs: 3,
            }),
            p.burst_below_permille == 150,
            p.retire_above_permille == 550,
            p.max_burst_per_pass == 32,
            p.burst_cooldown_epochs == 4,
    {
        AutoscalePolicy {
            scale: ScalePolicy::default(),
            burst_below_permille: 150,
            retire_above_permille: 550,
            max_burst_per_pass: 32,
            burst_cooldown_epochs: 4,
        }
    }
}

/// What a cell wanted last, and for how many epochs in a row.
#[derive(Debug, Clone, Copy, PartialEq, Eq, Structural)]
pub struct Dwell {
    pub last: Option<Verdict>,
    pub streak: u8,
}

/// The streak of a cell once a verdict is counted, before it is held against the threshold.
pub open spec fn streak_after(dwell: Map<CellId, Dwell>, cell: CellId, v: Verdict) -> int {
    if dwell.contains_key(cell) && dwell[cell].last == Some(v) {
        dwell[cell].streak + 1
    } else {
        1
    }
}

/// A verdict is acted on when it is not to hold and has been given `epochs` times in a row.
pub open spec fn fires(dwell: Map<CellId, Dwell>, cell: CellId, v: Verdict, epochs: u8) -> bool {
    v != Verdict::Hold && streak_after(dwell, cell, v) >= epochs
}

/// What a cell is remembered by afterwards: nothing on a hold, a streak of zero once it was acted on.
pub open spec fn dwell_after(
    dwell: Map<CellId, Dwell>,
    cell: CellId,
    v: Verdict,
    epochs: u8,
) -> Map<CellId, Dwell> {
    if v == Verdict::Hold {
        dwell.remove(cell)
    } else {
        let n = streak_after(dwell, cell, v);
        dwell.insert(
            cell,
            Dwell {
                last: Some(v),
                streak: if n >= epochs {
                    0
                } else {
                    n as u8
                },
            },
        )
    }
}

/// No streak can run over: it is reset before it could.
pub open spec fn streaks_bounded(dwell: Map<CellId, Dwell>) -> bool {
    forall|c: CellId| #[trigger] dwell.contains_key(c) ==> dwell[c].streak < 255
}

/// The nodes on which `n` further cells are seated one after the other, each on the best host that
/// still has a slot; none where they cannot all be seated.
pub open spec fn seating(
    hosts: Seq<HostNode>,
    near: Seq<char>,
    seated: Seq<Seq<char>>,
    n: nat,
) -> Option<Seq<Seq<char>>>
    decreases n,
{
    if n == 0 {
        Some(seated)
    } else {
        match best_seat(hosts, near, seated) {
            Some(at) => seating(
                hosts,
                near,
                seated.push(hosts[at].node_id@),
                (n - 1) as nat,
            ),
            None => None,
        }
    }
}

/// The best host for one more cell.
pub open spec fn best_seat(
    hosts: Seq<HostNode>,
    near: Seq<char>,
    seated: Seq<Seq<char>>,
) -> Option<int> {
    let eligible = |n: HostNode| seats_another(n, seated);
    if exists|at: int| is_best(hosts, near, eligible, at) {
        Some(choose|at: int| is_best(hosts, near, eligible, at))
    } else {
        None
    }
}

/// The best host is unique, and there is one as soon as some host is eligible.
proof fn lemma_best_unique(
    hosts: Seq<HostNode>,
    near: Seq<char>,
    eligible: spec_fn(HostNode) -> bool,
    a: int,
    b: int,
)
    requires
        is_best(hosts, near, eligible, a),
        is_best(hosts, near, eligible, b),
    ensures
        a == b,
{
    if a < b {
        assert(eligible(hosts[a]));
    } else if b < a {
        assert(eligible(hosts[b]));
    }
}

/// Every child of the cell has a load that asks for a merge.
pub open spec fn siblings_cold(
    parent: CellId,
    loads: Map<CellId, CellLoad>,
    policy: ScalePolicy,
) -> bool {
    forall|i: int|
        0 <= i < children_of(parent).len() ==> child_cold(
            #[trigger] children_of(parent)[i],
            loads,
            policy,
        )
}

pub open spec fn child_cold(c: CellId, loads: Map<CellId, CellLoad>, policy: ScalePolicy) -> bool {
    loads.contains_key(c) && loads[c].verdict_for(c.depth, &policy) == Verdict::Merge
}

/// Which cells a controller is responsible for. No two controllers answer for one cell.
pub trait Ownership {
    closed spec fn claimed(&self) -> Set<CellId> {
        arbitrary()
    }

    open spec fn ready(&self) -> bool {
        true
    }

    fn owns(&self, cell: &CellId) -> (r: bool)
        requires
            self.ready(),
        ensures
            r == self.claimed().contains(*cell),
    ;
}

impl Ownership for SortedSet<CellId> {
    open spec fn claimed(&self) -> Set<CellId> {
        self@
    }

    open spec fn ready(&self) -> bool {
        self.wf()
    }

    fn owns(&self, cell: &CellId) -> (r: bool) {
        self.contains(cell)
    }
}

/// What was observed for a pass.
pub struct Observed {
    pub owned: Set<CellId>,
    pub loads: Map<CellId, CellLoad>,
    pub hosts: Seq<HostNode>,
    pub policy: ScalePolicy,
}

/// The verdict on a leaf, where this controller owns it and its load is known.
pub open spec fn leaf_verdict(o: Observed, leaf: CellId) -> Option<Verdict> {
    if o.owned.contains(leaf) && o.loads.contains_key(leaf) {
        Some(o.loads[leaf].verdict_for(leaf.depth, &o.policy))
    } else {
        None
    }
}

/// What a pass does about a leaf whose verdict is acted on.
pub open spec fn leaf_action(o: Observed, leaf: CellId, v: Verdict) -> Seq<ActionView> {
    let near = RegionHint::UNKNOWN@;
    match v {
        Verdict::Split => match seating(
            o.hosts,
            near,
            Seq::empty(),
            children_of(leaf).len(),
        ) {
            Some(place_on) => if place_on.len() == 4 {
                seq![ActionView::Split { cell: leaf, place_on }]
            } else {
                seq![ActionView::Burst { count: 4, region: near }]
            },
            None => seq![ActionView::Burst { count: 4, region: near }],
        },
        Verdict::Merge => match parent_of(leaf) {
            Some(parent) => if o.owned.contains(parent) && siblings_cold(
                parent,
                o.loads,
                o.policy,
            ) {
                match best_seat(o.hosts, near, Seq::empty()) {
                    Some(at) => seq![
                        ActionView::Merge { parent, place_on: o.hosts[at].node_id@ },
                    ],
                    None => Seq::empty(),
                }
            } else {
                Seq::empty()
            },
            None => Seq::empty(),
        },
        Verdict::Hold => Seq::empty(),
    }
}

/// The memory after the first `n` leaves.
pub open spec fn dwell_pass(
    o: Observed,
    dwell: Map<CellId, Dwell>,
    leaves: Seq<CellId>,
    n: nat,
) -> Map<CellId, Dwell>
    decreases n,
{
    if n == 0 {
        dwell
    } else {
        let before = dwell_pass(o, dwell, leaves, (n - 1) as nat);
        let leaf = leaves[n - 1];
        match leaf_verdict(o, leaf) {
            Some(v) => dwell_after(before, leaf, v, o.policy.dwell_epochs),
            None => before,
        }
    }
}

/// The actions for the first `n` leaves, in the order of the leaves.
pub open spec fn leaf_actions(
    o: Observed,
    dwell: Map<CellId, Dwell>,
    leaves: Seq<CellId>,
    n: nat,
) -> Seq<ActionView>
    decreases n,
{
    if n == 0 {
        Seq::empty()
    } else {
        let done = leaf_actions(o, dwell, leaves, (n - 1) as nat);
        let before = dwell_pass(o, dwell, leaves, (n - 1) as nat);
        let leaf = leaves[n - 1];
        match leaf_verdict(o, leaf) {
            Some(v) => if fires(before, leaf, v, o.policy.dwell_epochs) {
                done + leaf_action(o, leaf, v)
            } else {
                done
            },
            None => done,
        }
    }
}

pub open spec fn in_region(region: Seq<char>) -> spec_fn(HostNode) -> bool {
    |n: HostNode| n.region@ == region
}

/// The hosts of a region.
pub open spec fn hosts_in(hosts: Seq<HostNode>, region: Seq<char>) -> Seq<HostNode> {
    hosts.filter(in_region(region))
}

/// The region has slots, and fewer than `permille` thousandths of them are free.
pub open spec fn region_tight(hosts: Seq<HostNode>, region: Seq<char>, permille: u32) -> bool {
    let local = hosts_in(hosts, region);
    budget_sum(local) > 0 && tighter_than(
        free_sum(local) as int,
        budget_sum(local) as int,
        permille as int,
    )
}

/// The tight regions of the fleet, each once and in ascending order.
pub open spec fn are_tight_regions(
    regions: Seq<Seq<char>>,
    hosts: Seq<HostNode>,
    permille: u32,
) -> bool {
    &&& forall|i: int, j: int|
        0 <= i < j < regions.len() ==> crate::text::text_below(
            #[trigger] regions[i],
            #[trigger] regions[j],
        )
    &&& forall|r: Seq<char>| #[trigger] regions.contains(r) <==> region_tight(hosts, r, permille)
}

/// A region may ask for nodes: it never has, or long enough ago.
pub open spec fn cooled_down(
    cooldown: Map<Seq<char>, u64>,
    region: Seq<char>,
    epoch: u64,
    epochs: u8,
) -> bool {
    !cooldown.contains_key(region) || (if epoch >= cooldown[region] {
        epoch - cooldown[region]
    } else {
        0
    }) >= epochs
}

/// The nodes that some actions ask for.
pub open spec fn nodes_asked(actions: Seq<ActionView>) -> nat
    decreases actions.len(),
{
    if actions.len() == 0 {
        0
    } else {
        nodes_asked(actions.drop_last()) + (match actions.last() {
            ActionView::Burst { count, region } => count as nat,
            _ => 0nat,
        })
    }
}

/// The actions with their bursts held to `most` nodes in all: a burst asks for no more than is left, and
/// one for which nothing is left falls away.
pub open spec fn within(actions: Seq<ActionView>, most: nat) -> Seq<ActionView>
    decreases actions.len(),
{
    if actions.len() == 0 {
        Seq::empty()
    } else {
        let done = within(actions.drop_last(), most);
        match actions.last() {
            ActionView::Burst { count, region } => {
                let left = most - nodes_asked(done);
                if left <= 0 {
                    done
                } else {
                    done.push(
                        ActionView::Burst {
                            count: if count <= left {
                                count
                            } else {
                                left as usize
                            },
                            region,
                        },
                    )
                }
            },
            other => done.push(other),
        }
    }
}

/// The bursts for the first `n` of the tight regions, held to `most` nodes in all.
pub open spec fn burst_actions(
    regions: Seq<Seq<char>>,
    n: nat,
    cooldown: Map<Seq<char>, u64>,
    epoch: u64,
    policy: AutoscalePolicy,
    most: nat,
) -> Seq<ActionView>
    decreases n,
{
    if n == 0 {
        Seq::empty()
    } else {
        let done = burst_actions(regions, (n - 1) as nat, cooldown, epoch, policy, most);
        let region = regions[n - 1];
        let left = most - nodes_asked(done);
        if left > 0 && cooled_down(cooldown, region, epoch, policy.burst_cooldown_epochs) {
            let count = if left < 8 {
                left as usize
            } else {
                8
            };
            done.push(ActionView::Burst { count, region })
        } else {
            done
        }
    }
}

/// When each region last asked, after the bursts for the first `n` of the tight regions.
pub open spec fn cooldown_after(
    regions: Seq<Seq<char>>,
    n: nat,
    cooldown: Map<Seq<char>, u64>,
    epoch: u64,
    policy: AutoscalePolicy,
    most: nat,
) -> Map<Seq<char>, u64>
    decreases n,
{
    if n == 0 {
        cooldown
    } else {
        let done = cooldown_after(regions, (n - 1) as nat, cooldown, epoch, policy, most);
        let asked = nodes_asked(
            burst_actions(regions, (n - 1) as nat, cooldown, epoch, policy, most),
        );
        let region = regions[n - 1];
        if most > asked && cooled_down(cooldown, region, epoch, policy.burst_cooldown_epochs) {
            done.insert(region, epoch)
        } else {
            done
        }
    }
}

pub open spec fn is_idle_burst(n: HostNode) -> bool {
    n.source is CloudBurst && n.cells == 0
}

/// Giving every idle rented node back, in the order of the hosts.
pub open spec fn retire_actions(hosts: Seq<HostNode>) -> Seq<ActionView> {
    hosts.filter(|n: HostNode| is_idle_burst(n)).map_values(
        |n: HostNode| ActionView::Retire { node: n.node_id@ },
    )
}

/// What the fleet as a whole calls for, and the memory of bursts that goes with it.
pub open spec fn elasticity(
    hosts: Seq<HostNode>,
    regions: Seq<Seq<char>>,
    cooldown: Map<Seq<char>, u64>,
    epoch: u64,
    policy: AutoscalePolicy,
    most: nat,
) -> (Seq<ActionView>, Map<Seq<char>, u64>) {
    let free = free_sum(hosts) as int;
    let total = budget_sum(hosts) as int;
    if tighter_than(free, total, policy.burst_below_permille as int) {
        (
            burst_actions(regions, regions.len(), cooldown, epoch, policy, most),
            cooldown_after(regions, regions.len(), cooldown, epoch, policy, most),
        )
    } else if roomier_than(free, total, policy.retire_above_permille as int) {
        (retire_actions(hosts), cooldown)
    } else {
        (Seq::empty(), cooldown)
    }
}

/// What is shed off a host of which a cell was picked: above its limit it gives the cell to the best
/// host near it, unless that is itself.
pub open spec fn shed_action(hosts: Seq<HostNode>, hot: HostNode, pick: Option<CellId>) -> Seq<
    ActionView,
> {
    if hot.load_permille > SHED_PERMILLE && pick is Some {
        match best_seat(hosts, hot.region@, Seq::empty()) {
            Some(at) => if hosts[at].node_id@ == hot.node_id@ {
                Seq::empty()
            } else {
                seq![
                    ActionView::Migrate {
                        cell: pick->0,
                        from: hot.node_id@,
                        to: hosts[at].node_id@,
                    },
                ]
            },
            None => Seq::empty(),
        }
    } else {
        Seq::empty()
    }
}

/// What is shed off the first `n` hosts, in their order.
pub open spec fn shed_actions(
    hosts: Seq<HostNode>,
    movable: Seq<Option<CellId>>,
    n: nat,
) -> Seq<ActionView>
    decreases n,
{
    if n == 0 {
        Seq::empty()
    } else {
        shed_actions(hosts, movable, (n - 1) as nat) + shed_action(
            hosts,
            hosts[n - 1],
            movable[n - 1],
        )
    }
}

pub open spec fn action_views(actions: Seq<ScaleAction>) -> Seq<ActionView> {
    actions.map_values(|a: ScaleAction| a@)
}

/// The autoscaler. It observes the world anew in every pass, and remembers only streaks and bursts.
pub struct Autoscaler {
    pub policy: AutoscalePolicy,
    /// What each cell has wanted, and for how long.
    pub dwell: SortedMap<CellId, Dwell>,
    /// The epoch in which each region last asked for nodes.
    pub burst_cooldown: SortedMap<RegionHint, u64>,
}

/// The actions of a pass and the memory of bursts after it: first what is done leaf by leaf, then what
/// the fleet as a whole calls for. All bursts of the pass together stay within what one pass may ask for.
pub open spec fn outcome(
    o: Observed,
    dwell: Map<CellId, Dwell>,
    leaves: Seq<CellId>,
    regions: Seq<Seq<char>>,
    cooldown: Map<Seq<char>, u64>,
    epoch: u64,
    policy: AutoscalePolicy,
) -> (Seq<ActionView>, Map<Seq<char>, u64>) {
    let most = policy.max_burst_per_pass as nat;
    let by_leaf = within(leaf_actions(o, dwell, leaves, leaves.len()), most);
    let (fleet_wide, after) = elasticity(
        o.hosts,
        regions,
        cooldown,
        epoch,
        policy,
        (most - nodes_asked(by_leaf)) as nat,
    );
    (by_leaf + fleet_wide, after)
}

/// What one control pass decides.
pub open spec fn decided(
    before: Autoscaler,
    after: Autoscaler,
    actions: Seq<ScaleAction>,
    epoch: u64,
    leaves: Seq<CellId>,
    o: Observed,
) -> bool {
    &&& after.policy == before.policy
    &&& after.dwell@ == dwell_pass(o, before.dwell@, leaves, leaves.len())
    &&& exists|regions: Seq<Seq<char>>| #[trigger]
        are_tight_regions(regions, o.hosts, before.policy.burst_below_permille) && outcome(
            o,
            before.dwell@,
            leaves,
            regions,
            before.burst_cooldown@,
            epoch,
            before.policy,
        ) == (action_views(actions), after.burst_cooldown@)
}

impl Autoscaler {
    pub open spec fn wf(&self) -> bool {
        self.dwell.wf() && self.burst_cooldown.wf() && streaks_bounded(self.dwell@)
    }

    pub fn new(policy: AutoscalePolicy) -> (a: Self)
        ensures
            a.wf(),
            a.policy == policy,
            a.dwell@ == Map::<CellId, Dwell>::empty(),
            a.burst_cooldown@ == Map::<Seq<char>, u64>::empty(),
    {
        Autoscaler { policy, dwell: SortedMap::new(), burst_cooldown: SortedMap::new() }
    }

    /// Counts a verdict and says whether to act on it: on the last of `dwell_epochs` equal verdicts
    /// in a row, after which the count starts again.
    pub fn debounce(&mut self, cell: CellId, v: Verdict) -> (act: bool)
        requires
            old(self).wf(),
        ensures
            final(self).wf(),
            final(self).policy == old(self).policy,
            final(self).burst_cooldown@ == old(self).burst_cooldown@,
            act == fires(old(self).dwell@, cell, v, old(self).policy.scale.dwell_epochs),
            final(self).dwell@ == dwell_after(
                old(self).dwell@,
                cell,
                v,
                old(self).policy.scale.dwell_epochs,
            ),
    {
        if v == Verdict::Hold {
            let _ = self.dwell.remove(&cell);
            return false;
        }
        let mut d: Dwell = match self.dwell.get(&cell) {
            Some(d) => *d,
            None => Dwell { last: None, streak: 0 },
        };
        if d.last == Some(v) {
            d.streak = d.streak + 1;
        } else {
            d.last = Some(v);
            d.streak = 1;
        }
        let act: bool = d.streak >= self.policy.scale.dwell_epochs;
        if act {
            d.streak = 0;
        }
        let _ = self.dwell.insert(cell, d);
        act
    }

    /// Seats the four children of a cell that splits; none where the fleet cannot seat them all.
    pub fn place_four(&self, cell: &CellId, region: &RegionHint, fleet: &Fleet) -> (r: Option<
        [NodeId; 4],
    >)
        requires
            cell.divisible(),
        ensures
            ({
                let seats = seating(
                    fleet.hosts@,
                    region@,
                    Seq::empty(),
                    children_of(*cell).len(),
                );
                match r {
                    Some(place_on) => seats == Some(ids(place_on@)),
                    None => seats is None || seats->0.len() != 4,
                }
            }),
    {
        let kids = cell.children();
        let mut out: Vec<NodeId> = Vec::with_capacity(4);
        let mut k: usize = 0;
        let ghost all = seating(fleet.hosts@, region@, Seq::empty(), kids@.len());
        assert(ids(out@) =~= Seq::<Seq<char>>::empty());
        while k < kids.len()
            invariant
                k <= kids@.len(),
                out@.len() == k,
                kids@ == children_of(*cell),
                all == seating(fleet.hosts@, region@, Seq::empty(), kids@.len()),
                all == seating(fleet.hosts@, region@, ids(out@), (kids@.len() - k) as nat),
            decreases kids@.len() - k,
        {
            let ghost seated = ids(out@);
            let ghost eligible = |n: HostNode| seats_another(n, seated);
            match fleet.best_index(region, &out) {
                Some(at) => {
                    proof {
                        let best = choose|b: int| is_best(fleet.hosts@, region@, eligible, b);
                        lemma_best_unique(fleet.hosts@, region@, eligible, at as int, best);
                    }
                    out.push(fleet.hosts[at].node_id.clone());
                    assert(ids(out@) =~= seated.push(fleet.hosts@[at as int].node_id@));
                },
                None => {
                    proof {
                        assert forall|b: int| !is_best(fleet.hosts@, region@, eligible, b) by {
                            if is_best(fleet.hosts@, region@, eligible, b) {
                                assert(eligible(fleet.hosts@[b]));
                            }
                        }
                    }
                    return None;
                },
            }
            k = k + 1;
        }
        assert(all == Some(ids(out@)));
        let ghost seats = ids(out@);
        if out.len() != 4 {
            return None;
        }
        let d: NodeId = out.remove(3);
        let c: NodeId = out.remove(2);
        let b: NodeId = out.remove(1);
        let a: NodeId = out.remove(0);
        let place_on: [NodeId; 4] = [a, b, c, d];
        assert(ids(place_on@) =~= seats);
        Some(place_on)
    }

    /// Do all the children of a cell ask for a merge?
    pub fn all_siblings_cold(&self, parent: CellId, loads: &SortedMap<CellId, CellLoad>) -> (r: bool)
        requires
            loads.wf(),
            parent.divisible(),
        ensures
            r == siblings_cold(parent, loads@, self.policy.scale),
    {
        let kids = parent.children();
        let mut i: usize = 0;
        while i < kids.len()
            invariant
                i <= kids@.len(),
                kids@ == children_of(parent),
                loads.wf(),
                forall|j: int|
                    0 <= j < i ==> child_cold(#[trigger] kids@[j], loads@, self.policy.scale),
            decreases kids@.len() - i,
        {
            let c: CellId = kids[i];
            let cold: bool = match loads.get(&c) {
                Some(l) => l.verdict(c.depth, &self.policy.scale) == Verdict::Merge,
                None => false,
            };
            if !cold {
                assert(!child_cold(kids@[i as int], loads@, self.policy.scale));
                return false;
            }
            i = i + 1;
        }
        true
    }

    /// The region of a cell's crowd. Nothing that a load frame carries tells it.
    pub fn region_of(&self, _load: &CellLoad, _fleet: &Fleet) -> (r: RegionHint)
        ensures
            r@ == RegionHint::UNKNOWN@,
    {
        RegionHint::unknown()
    }

    /// The regions whose own slots are nearly used up, so that nodes are asked for where they lack.
    pub fn tight_regions(&self, fleet: &Fleet) -> (r: Vec<RegionHint>)
        requires
            budget_sum(fleet.hosts@) <= u32::MAX,
        ensures
            are_tight_regions(views(r@), fleet.hosts@, self.policy.burst_below_permille),
    {
        let ghost hosts = fleet.hosts@;
        let mut by_region: SortedMap<RegionHint, (u32, u32)> = SortedMap::new();
        let mut i: usize = 0;
        while i < fleet.hosts.len()
            invariant
                i <= hosts.len(),
                hosts == fleet.hosts@,
                budget_sum(hosts) <= u32::MAX,
                by_region.wf(),
                tallied(by_region@, hosts.subrange(0, i as int)),
            decreases hosts.len() - i,
        {
            let n = &fleet.hosts[i];
            let ghost seen = hosts.subrange(0, i as int);
            let ghost before = by_region@;
            let ghost here = in_region(n.region@);
            proof {
                assert(hosts.subrange(0, i + 1) =~= seen.push(*n));
                crate::sort::lemma_filter_push(seen, *n, here);
                lemma_sums(hosts, i + 1);
                crate::fleet::lemma_filtered_sums(seen.push(*n), here);
                crate::fleet::lemma_filtered_sums(seen, here);
                let local = seen.filter(here);
                assert(local.push(*n).drop_last() =~= local);
                if !before.contains_key(n.region@) {
                    assert(!has_region(seen, n.region@));
                    lemma_no_hosts(seen, n.region@);
                }
            }
            let (free, total): (u32, u32) = match by_region.get(&n.region) {
                Some(e) => *e,
                None => (0, 0),
            };
            let _ = by_region.insert(
                n.region.clone(),
                (free + n.headroom(), total + n.cell_budget),
            );
            proof {
                lemma_tally_step(before, seen, *n);
            }
            i = i + 1;
        }
        proof {
            assert(hosts.subrange(0, i as int) =~= hosts);
            by_region.lemma_orders();
        }
        let ghost keys = by_region.key_order();
        let ghost sums = by_region.value_order();
        let mut out: Vec<RegionHint> = Vec::new();
        let mut k: usize = 0;
        while k < by_region.len()
            invariant
                k <= keys.len(),
                by_region.wf(),
                keys == by_region.key_order(),
                sums == by_region.value_order(),
                keys.len() == sums.len(),
                crate::order::ascending(keys),
                tallied(by_region@, hosts),
                forall|j: int|
                    #![trigger keys[j]]
                    0 <= j < keys.len() ==> by_region@.contains_pair(keys[j]@, sums[j]),
                crate::order::ascending(out@),
                forall|j: int|
                    0 <= j < out@.len() ==> among(keys, k as int, #[trigger] out@[j]),
                forall|m: int|
                    0 <= m < k ==> (region_tight(
                        hosts,
                        #[trigger] keys[m]@,
                        self.policy.burst_below_permille,
                    ) <==> views(out@).contains(keys[m]@)),
            decreases keys.len() - k,
        {
            let region = &by_region.keys()[k];
            let (free, total): (u32, u32) = by_region.values()[k];
            let tight: bool = total > 0 && slots_tighter_than(
                free,
                total,
                self.policy.burst_below_permille,
            );
            let ghost before = out@;
            proof {
                assert(by_region@.contains_pair(keys[k as int]@, sums[k as int]));
                assert(tight == region_tight(hosts, keys[k as int]@, self.policy.burst_below_permille));
                assert forall|j: int| 0 <= j < before.len() implies #[trigger]
                    crate::text::text_below(before[j]@, keys[k as int]@) by {
                    assert(among(keys, k as int, before[j]));
                    let m = choose|m: int| 0 <= m < k && #[trigger] keys[m] == before[j];
                    assert(RegionHint::below(keys[m]@, keys[k as int]@));
                }
            }
            if tight {
                out.push(region.clone());
            }
            proof {
                lemma_tight_step(keys, k as int, before, out@, tight);
            }
            k = k + 1;
        }
        proof {
            let permille = self.policy.burst_below_permille;
            let rs = views(out@);
            assert forall|r: Seq<char>| #[trigger] rs.contains(r) <==> region_tight(
                hosts,
                r,
                permille,
            ) by {
                if rs.contains(r) {
                    let j = choose|j: int| 0 <= j < rs.len() && rs[j] == r;
                    assert(among(keys, k as int, out@[j]));
                    let m = choose|m: int| 0 <= m < k && #[trigger] keys[m] == out@[j];
                    assert(views(out@).contains(keys[m]@));
                }
                if region_tight(hosts, r, permille) {
                    if !by_region@.contains_key(r) {
                        lemma_no_hosts(hosts, r);
                    }
                    assert(views(keys).contains(r));
                    let m = choose|m: int| 0 <= m < views(keys).len() && views(keys)[m] == r;
                    assert(keys[m]@ == r);
                }
            }
            assert forall|a: int, b: int| 0 <= a < b < rs.len() implies crate::text::text_below(
                #[trigger] rs[a],
                #[trigger] rs[b],
            ) by {
                assert(RegionHint::below(out@[a]@, out@[b]@));
            }
        }
        out
    }

    /// May a region ask for nodes again?
    pub fn burst_ready(&self, region: &RegionHint, epoch: u64) -> (r: bool)
        requires
            self.wf(),
        ensures
            r == cooled_down(
                self.burst_cooldown@,
                region@,
                epoch,
                self.policy.burst_cooldown_epochs,
            ),
    {
        match self.burst_cooldown.get(region) {
            Some(last) => epoch.saturating_sub(*last) >= self.policy.burst_cooldown_epochs as u64,
            None => true,
        }
    }

    /// The rented nodes that run nothing, in the order of the hosts.
    pub fn idle_burst_nodes(&self, fleet: &Fleet) -> (r: Vec<NodeId>)
        ensures
            r@ == fleet.hosts@.filter(|n: HostNode| is_idle_burst(n)).map_values(
                |n: HostNode| n.node_id,
            ),
    {
        let ghost hosts = fleet.hosts@;
        let ghost idle = |n: HostNode| is_idle_burst(n);
        let ghost name = |n: HostNode| n.node_id;
        let mut out: Vec<NodeId> = Vec::new();
        let mut i: usize = 0;
        proof {
            reveal(Seq::filter);
            assert(hosts.subrange(0, 0) =~= Seq::<HostNode>::empty());
            assert(out@ =~= hosts.subrange(0, 0).filter(idle).map_values(name));
        }
        while i < fleet.hosts.len()
            invariant
                i <= hosts.len(),
                hosts == fleet.hosts@,
                idle == (|n: HostNode| is_idle_burst(n)),
                name == (|n: HostNode| n.node_id),
                out@ == hosts.subrange(0, i as int).filter(idle).map_values(name),
            decreases hosts.len() - i,
        {
            let n = &fleet.hosts[i];
            let ghost seen = hosts.subrange(0, i as int);
            proof {
                assert(hosts.subrange(0, i + 1) =~= seen.push(*n));
                crate::sort::lemma_filter_push(seen, *n, idle);
            }
            if n.is_burst() && n.cells == 0 {
                out.push(n.node_id.clone());
                assert(out@ =~= seen.filter(idle).push(*n).map_values(name));
            }
            i = i + 1;
        }
        assert(hosts.subrange(0, i as int) =~= hosts);
        out
    }

    /// The cell that a redlining node would shed. No measure ranks the cells of one node, so none
    /// is named and rebalancing proposes nothing.
    pub fn heaviest_movable_cell(&self, _node: &NodeId) -> (r: Option<CellId>)
        ensures
            r is None,
    {
        None
    }

    /// One control pass over the leaves that this controller owns and over the fleet. First come
    /// the splits and merges, leaf by leaf, then what the fleet as a whole calls for.
    pub fn decide<O: Ownership>(
        &mut self,
        epoch: u64,
        galaxy: &Galaxy,
        loads: &SortedMap<CellId, CellLoad>,
        fleet: &Fleet,
        owned: &O,
    ) -> (actions: Vec<ScaleAction>)
        requires
            old(self).wf(),
            galaxy.wf(),
            loads.wf(),
            owned.ready(),
            forall|c: CellId| galaxy@.contains(c) ==> #[trigger] c.divisible(),
            budget_sum(fleet.hosts@) <= u32::MAX,
            fleet.hosts@.len() <= u32::MAX,
        ensures
            final(self).wf(),
            decided(
                *old(self),
                *final(self),
                actions@,
                epoch,
                galaxy.leaf_order(),
                Observed {
                    owned: owned.claimed(),
                    loads: loads@,
                    hosts: fleet.hosts@,
                    policy: old(self).policy.scale,
                },
            ),
    {
        let ghost o = Observed {
            owned: owned.claimed(),
            loads: loads@,
            hosts: fleet.hosts@,
            policy: self.policy.scale,
        };
        let ghost dwell0 = self.dwell@;
        let ghost cooldown0 = self.burst_cooldown@;
        let ghost policy = self.policy;
        let mut actions: Vec<ScaleAction> = Vec::new();
        let leaves = galaxy.leaves();
        let mut i: usize = 0;
        assert(action_views(actions@) =~= Seq::<ActionView>::empty());
        while i < leaves.len()
            invariant
                i <= leaves@.len(),
                leaves@ == galaxy.leaf_order(),
                leaves@.to_set() == galaxy@,
                forall|c: CellId| galaxy@.contains(c) ==> #[trigger] c.divisible(),
                self.wf(),
                self.policy == policy,
                self.burst_cooldown@ == cooldown0,
                loads.wf(),
                owned.ready(),
                o == (Observed {
                    owned: owned.claimed(),
                    loads: loads@,
                    hosts: fleet.hosts@,
                    policy: policy.scale,
                }),
                self.dwell@ == dwell_pass(o, dwell0, leaves@, i as nat),
                action_views(actions@) == leaf_actions(o, dwell0, leaves@, i as nat),
            decreases leaves@.len() - i,
        {
            let leaf: CellId = leaves[i];
            proof {
                assert(leaves@.contains(leaf));
                assert(galaxy@.contains(leaf));
            }
            i = i + 1;
            if owned.owns(&leaf) {
                if let Some(load) = loads.get(&leaf) {
                    let verdict = load.verdict(leaf.depth, &self.policy.scale);
                    if self.debounce(leaf, verdict) {
                        let ghost before = action_views(actions@);
                        self.act_on_leaf(&mut actions, &leaf, load, verdict, loads, fleet, owned);
                        assert(action_views(actions@) == before + leaf_action(o, leaf, verdict));
                    }
                }
            }
        }
        let ghost wanted = action_views(actions@);
        let (kept, left): (Vec<ScaleAction>, usize) = hold_bursts(
            actions,
            self.policy.max_burst_per_pass,
        );
        let mut actions: Vec<ScaleAction> = kept;
        let mut spare: usize = left;
        let ghost by_leaf = action_views(actions@);
        let ghost most = left as nat;
        let h = fleet.headroom();
        let regions = self.tight_regions(fleet);
        let ghost rs = views(regions@);
        if h.slack_below(self.policy.burst_below_permille) {
            let mut k: usize = 0;
            assert(by_leaf =~= by_leaf + burst_actions(rs, 0, cooldown0, epoch, policy, most));
            while k < regions.len()
                invariant
                    k <= regions@.len(),
                    rs == views(regions@),
                    are_tight_regions(rs, fleet.hosts@, policy.burst_below_permille),
                    self.wf(),
                    self.policy == policy,
                    self.dwell@ == dwell_pass(o, dwell0, leaves@, leaves@.len()),
                    self.burst_cooldown@ == cooldown_after(
                        rs,
                        k as nat,
                        cooldown0,
                        epoch,
                        policy,
                        most,
                    ),
                    action_views(actions@) == by_leaf + burst_actions(
                        rs,
                        k as nat,
                        cooldown0,
                        epoch,
                        policy,
                        most,
                    ),
                    spare == most - nodes_asked(
                        burst_actions(rs, k as nat, cooldown0, epoch, policy, most),
                    ),
                decreases regions@.len() - k,
            {
                let region = &regions[k];
                let ghost done = action_views(actions@);
                proof {
                    assert(rs[k as int] == region@);
                    lemma_cooldown_untouched(rs, k as nat, cooldown0, epoch, policy, most, k as int);
                }
                if spare > 0 && self.burst_ready(region, epoch) {
                    let count: usize = if spare < 8 {
                        spare
                    } else {
                        8
                    };
                    spare = spare - count;
                    actions.push(ScaleAction::Burst { count, region: region.clone() });
                    proof {
                        let act = ActionView::Burst { count, region: region@ };
                        assert(action_views(actions@) =~= done.push(act));
                        let asked = burst_actions(rs, k as nat, cooldown0, epoch, policy, most);
                        assert(done.push(act) =~= by_leaf + asked.push(act));
                        assert(asked.push(act).drop_last() =~= asked);
                    }
                    let _ = self.burst_cooldown.insert(region.clone(), epoch);
                }
                k = k + 1;
            }
        } else if h.slack_above(self.policy.retire_above_permille) {
            let mut idle = self.idle_burst_nodes(fleet);
            let ghost nodes = idle@;
            let ghost mut taken: int = 0;
            let ghost acts = nodes.map_values(|n: NodeId| ActionView::Retire { node: n@ });
            assert(acts.subrange(0, 0) =~= Seq::<ActionView>::empty());
            assert(nodes.subrange(0, nodes.len() as int) =~= nodes);
            assert(by_leaf + acts.subrange(0, 0) =~= by_leaf);
            while idle.len() > 0
                invariant
                    0 <= taken <= nodes.len(),
                    idle@ == nodes.subrange(taken, nodes.len() as int),
                    acts == nodes.map_values(|n: NodeId| ActionView::Retire { node: n@ }),
                    action_views(actions@) == by_leaf + acts.subrange(0, taken),
                decreases idle@.len(),
            {
                let ghost done = action_views(actions@);
                let node: NodeId = idle.remove(0);
                actions.push(ScaleAction::Retire { node });
                proof {
                    let act = ActionView::Retire { node: node@ };
                    assert(action_views(actions@) =~= done.push(act));
                    assert(acts[taken] == act);
                    assert(done.push(act) =~= by_leaf + acts.subrange(0, taken + 1));
                    assert(idle@ =~= nodes.subrange(taken + 1, nodes.len() as int));
                    taken = taken + 1;
                }
            }
            proof {
                assert(acts.subrange(0, taken) =~= acts);
                assert(acts =~= retire_actions(fleet.hosts@));
            }
        } else {
            assert(by_leaf + Seq::<ActionView>::empty() =~= by_leaf);
        }
        let ghost settled = action_views(actions@);
        let movable = self.movable_cells(fleet);
        self.rebalance(&mut actions, fleet, &movable);
        proof {
            lemma_nothing_shed(fleet.hosts@, movable@, fleet.hosts@.len());
            assert(settled + Seq::<ActionView>::empty() =~= settled);
            assert(wanted == leaf_actions(o, dwell0, leaves@, leaves@.len()));
            assert(are_tight_regions(rs, o.hosts, old(self).policy.burst_below_permille) && outcome(
                o,
                old(self).dwell@,
                leaves@,
                rs,
                old(self).burst_cooldown@,
                epoch,
                old(self).policy,
            ) == (action_views(actions@), self.burst_cooldown@));
        }
        actions
    }

    /// Appends what is to be done about a leaf whose verdict is acted on.
    fn act_on_leaf<O: Ownership>(
        &self,
        actions: &mut Vec<ScaleAction>,
        leaf: &CellId,
        load: &CellLoad,
        verdict: Verdict,
        loads: &SortedMap<CellId, CellLoad>,
        fleet: &Fleet,
        owned: &O,
    )
        requires
            loads.wf(),
            owned.ready(),
            leaf.divisible(),
        ensures
            action_views(final(actions)@) == action_views(old(actions)@) + leaf_action(
                Observed {
                    owned: owned.claimed(),
                    loads: loads@,
                    hosts: fleet.hosts@,
                    policy: self.policy.scale,
                },
                *leaf,
                verdict,
            ),
    {
        let ghost before = action_views(actions@);
        match verdict {
            Verdict::Split => {
                let region = self.region_of(load, fleet);
                match self.place_four(leaf, &region, fleet) {
                    Some(place_on) => {
                        actions.push(ScaleAction::Split { cell: *leaf, place_on });
                        assert(action_views(actions@) =~= before + seq![
                            ActionView::Split { cell: *leaf, place_on: ids(place_on@) },
                        ]);
                    },
                    None => {
                        actions.push(ScaleAction::Burst { count: 4, region });
                        assert(action_views(actions@) =~= before + seq![
                            ActionView::Burst { count: 4, region: region@ },
                        ]);
                    },
                }
            },
            Verdict::Merge => {
                let ghost mut merged: Seq<ActionView> = Seq::empty();
                if let Some(parent) = leaf.parent() {
                    if owned.owns(&parent) && self.all_siblings_cold(parent, loads) {
                        let region = self.region_of(load, fleet);
                        let ghost eligible = |n: HostNode| seats_another(n, Seq::empty());
                        match fleet.best_host_for(&parent, &region) {
                            Some(node) => {
                                proof {
                                    let at = choose|at: int|
                                        is_best(
                                            fleet.hosts@,
                                            region@,
                                            |n: HostNode| takes_cell(n),
                                            at,
                                        ) && #[trigger] fleet.hosts@[at].node_id == node;
                                    crate::fleet::lemma_nothing_seated(
                                        fleet.hosts@,
                                        region@,
                                        at,
                                    );
                                    let best = choose|b: int|
                                        is_best(fleet.hosts@, region@, eligible, b);
                                    lemma_best_unique(fleet.hosts@, region@, eligible, at, best);
                                    merged = seq![
                                        ActionView::Merge { parent, place_on: node@ },
                                    ];
                                }
                                actions.push(ScaleAction::Merge { parent, place_on: node });
                            },
                            None => {
                                proof {
                                    assert forall|b: int| !is_best(
                                        fleet.hosts@,
                                        region@,
                                        eligible,
                                        b,
                                    ) by {
                                        if is_best(fleet.hosts@, region@, eligible, b) {
                                            assert(takes_cell(fleet.hosts@[b]));
                                        }
                                    }
                                }
                            },
                        }
                    }
                }
                assert(action_views(actions@) =~= before + merged);
            },
            Verdict::Hold => {
                assert(action_views(actions@) =~= before + Seq::<ActionView>::empty());
            },
        }
    }

    /// The cell that each host would shed, host by host. None is picked for a host that is not
    /// redlining.
    fn movable_cells(&self, fleet: &Fleet) -> (r: Vec<Option<CellId>>)
        ensures
            r@ == Seq::new(fleet.hosts@.len(), |i: int| None::<CellId>),
    {
        let mut picks: Vec<Option<CellId>> = Vec::new();
        let mut i: usize = 0;
        while i < fleet.hosts.len()
            invariant
                i <= fleet.hosts@.len(),
                picks@ == Seq::new(i as nat, |k: int| None::<CellId>),
            decreases fleet.hosts@.len() - i,
        {
            let host = &fleet.hosts[i];
            let pick: Option<CellId> = if host.load_permille > SHED_PERMILLE {
                self.heaviest_movable_cell(&host.node_id)
            } else {
                None
            };
            picks.push(pick);
            i = i + 1;
        }
        picks
    }

    /// Sheds a cell off every redlining host onto the best host near it, where a cell of it was
    /// picked and the best host is another. `movable` holds the pick of each host.
    pub fn rebalance(
        &self,
        actions: &mut Vec<ScaleAction>,
        fleet: &Fleet,
        movable: &Vec<Option<CellId>>,
    )
        requires
            movable@.len() == fleet.hosts@.len(),
        ensures
            action_views(final(actions)@) == action_views(old(actions)@) + shed_actions(
                fleet.hosts@,
                movable@,
                fleet.hosts@.len(),
            ),
    {
        let ghost hosts = fleet.hosts@;
        let ghost start = action_views(actions@);
        let mut i: usize = 0;
        assert(start + shed_actions(hosts, movable@, 0) =~= start);
        while i < fleet.hosts.len()
            invariant
                i <= hosts.len(),
                hosts == fleet.hosts@,
                movable@.len() == hosts.len(),
                action_views(actions@) == start + shed_actions(hosts, movable@, i as nat),
            decreases hosts.len() - i,
        {
            let hot = &fleet.hosts[i];
            let ghost before = action_views(actions@);
            match self.shed(hot, movable[i], fleet) {
                Some(act) => {
                    let ghost view = act@;
                    actions.push(act);
                    assert(action_views(actions@) =~= before + seq![view]);
                },
                None => {
                    assert(action_views(actions@) =~= before + Seq::<ActionView>::empty());
                },
            }
            proof {
                let done = shed_actions(hosts, movable@, i as nat);
                assert(start + (done + shed_action(hosts, *hot, movable@[i as int])) =~= (start
                    + done) + shed_action(hosts, *hot, movable@[i as int]));
            }
            i = i + 1;
        }
    }

    fn shed(&self, hot: &HostNode, pick: Option<CellId>, fleet: &Fleet) -> (r: Option<ScaleAction>)
        ensures
            shed_action(fleet.hosts@, *hot, pick) == (match r {
                Some(act) => seq![act@],
                None => Seq::empty(),
            }),
    {
        if hot.load_permille <= SHED_PERMILLE {
            return None;
        }
        let cell: CellId = match pick {
            Some(c) => c,
            None => {
                return None;
            },
        };
        let ghost hosts = fleet.hosts@;
        let ghost near = hot.region@;
        let ghost eligible = |n: HostNode| seats_another(n, Seq::empty());
        match fleet.best_host_for(&cell, &hot.region) {
            Some(to) => {
                proof {
                    let at = choose|at: int|
                        is_best(hosts, near, |n: HostNode| takes_cell(n), at)
                            && #[trigger] hosts[at].node_id == to;
                    crate::fleet::lemma_nothing_seated(hosts, near, at);
                    let best = choose|b: int| is_best(hosts, near, eligible, b);
                    lemma_best_unique(hosts, near, eligible, at, best);
                }
                if same_text(to.as_str(), hot.node_id.as_str()) {
                    None
                } else {
                    Some(ScaleAction::Migrate { cell, from: hot.node_id.clone(), to })
                }
            },
            None => {
                proof {
                    assert forall|b: int| !is_best(hosts, near, eligible, b) by {
                        if is_best(hosts, near, eligible, b) {
                            assert(takes_cell(hosts[b]));
                        }
                    }
                }
                None
            },
        }
    }
}

proof fn lemma_nothing_shed(hosts: Seq<HostNode>, movable: Seq<Option<CellId>>, n: nat)
    requires
        n <= movable.len(),
        forall|i: int| 0 <= i < movable.len() ==> (#[trigger] movable[i]) is None,
    ensures
        shed_actions(hosts, movable, n) == Seq::<ActionView>::empty(),
    decreases n,
{
    if n > 0 {
        lemma_nothing_shed(hosts, movable, (n - 1) as nat);
        assert(movable[n - 1] is None);
    }
}

/// The region is one of the first `k` keys.
spec fn among(keys: Seq<RegionHint>, k: int, region: RegionHint) -> bool {
    exists|m: int| 0 <= m < k && #[trigger] keys[m] == region
}

/// Some host is in the region.
spec fn has_region(hosts: Seq<HostNode>, region: Seq<char>) -> bool {
    exists|i: int| 0 <= i < hosts.len() && (#[trigger] hosts[i]).region@ == region
}

/// The map holds, for every region of the hosts, its free slots and its slots.
spec fn tallied(by_region: Map<Seq<char>, (u32, u32)>, hosts: Seq<HostNode>) -> bool {
    &&& forall|r: Seq<char>| #[trigger] by_region.contains_key(r) <==> has_region(hosts, r)
    &&& forall|r: Seq<char>| #[trigger]
        by_region.contains_key(r) ==> by_region[r].0 == free_sum(hosts_in(hosts, r))
            && by_region[r].1 == budget_sum(hosts_in(hosts, r))
}

proof fn lemma_no_hosts(hosts: Seq<HostNode>, region: Seq<char>)
    requires
        !has_region(hosts, region),
    ensures
        hosts_in(hosts, region) == Seq::<HostNode>::empty(),
{
    let here = in_region(region);
    assert forall|i: int| 0 <= i < hosts.len() implies !here(#[trigger] hosts[i]) by {
        assert(hosts[i].region@ != region);
    }
    crate::sort::lemma_filter_none(hosts, here);
}

proof fn lemma_tally_step(before: Map<Seq<char>, (u32, u32)>, seen: Seq<HostNode>, n: HostNode)
    requires
        tallied(before, seen),
        budget_sum(seen.push(n)) <= u32::MAX,
    ensures
        ({
            let r = n.region@;
            let (free, total) = if before.contains_key(r) {
                before[r]
            } else {
                (0u32, 0u32)
            };
            tallied(
                before.insert(
                    r,
                    ((free + free_slots_of(n)) as u32, (total + n.cell_budget) as u32),
                ),
                seen.push(n),
            )
        }),
{
    let r = n.region@;
    let (free, total) = if before.contains_key(r) {
        before[r]
    } else {
        (0u32, 0u32)
    };
    let after = before.insert(
        r,
        ((free + free_slots_of(n)) as u32, (total + n.cell_budget) as u32),
    );
    let all = seen.push(n);
    assert forall|q: Seq<char>| #[trigger] after.contains_key(q) <==> has_region(all, q) by {
        assert(all[seen.len() as int] == n);
        if has_region(seen, q) {
            let i = choose|i: int| 0 <= i < seen.len() && (#[trigger] seen[i]).region@ == q;
            assert(all[i].region@ == q);
        }
        if has_region(all, q) && q != r {
            let i = choose|i: int| 0 <= i < all.len() && (#[trigger] all[i]).region@ == q;
            assert(seen[i].region@ == q);
        }
        assert(before.contains_key(q) <==> has_region(seen, q));
    }
    assert forall|q: Seq<char>| #[trigger] after.contains_key(q) implies after[q].0 == free_sum(
        hosts_in(all, q),
    ) && after[q].1 == budget_sum(hosts_in(all, q)) by {
        let here = in_region(q);
        assert(here(n) == (n.region@ == q));
        crate::sort::lemma_filter_push(seen, n, here);
        crate::fleet::lemma_filtered_sums(all, here);
        let local = hosts_in(seen, q);
        assert(hosts_in(all, q) == if q == r {
            local.push(n)
        } else {
            local
        });
        assert(local.push(n).drop_last() =~= local);
        assert(before.contains_key(q) <==> has_region(seen, q));
        if q == r {
            if !before.contains_key(q) {
                lemma_no_hosts(seen, q);
                assert(free_sum(local) == 0 && budget_sum(local) == 0);
            }
            assert(free == free_sum(local) && total == budget_sum(local));
            assert(free_sum(local.push(n)) == free_sum(local) + free_slots_of(n));
            assert(budget_sum(local.push(n)) == budget_sum(local) + n.cell_budget);
            assert(after[q].0 == free + free_slots_of(n));
        } else {
            assert(after[q] == before[q]);
        }
    }
}

proof fn lemma_tight_step(
    keys: Seq<RegionHint>,
    k: int,
    before: Seq<RegionHint>,
    after: Seq<RegionHint>,
    tight: bool,
)
    requires
        0 <= k < keys.len(),
        crate::order::ascending(keys),
        crate::order::ascending(before),
        after == (if tight {
            before.push(keys[k])
        } else {
            before
        }),
        forall|j: int| 0 <= j < before.len() ==> #[trigger]
            crate::text::text_below(before[j]@, keys[k]@),
        forall|j: int| 0 <= j < before.len() ==> among(keys, k, #[trigger] before[j]),
    ensures
        crate::order::ascending(after),
        views(after).contains(keys[k]@) <==> tight,
        forall|m: int|
            0 <= m < k ==> (views(after).contains((#[trigger] keys[m])@) <==> views(
                before,
            ).contains(keys[m]@)),
        forall|j: int| 0 <= j < after.len() ==> among(keys, k + 1, #[trigger] after[j]),
{
    assert forall|a: int, b: int| 0 <= a < b < after.len() implies #[trigger] RegionHint::below(
        after[a]@,
        after[b]@,
    ) by {
        if b < before.len() {
            assert(RegionHint::below(before[a]@, before[b]@));
        } else {
            assert(crate::text::text_below(before[a]@, keys[k]@));
        }
    }
    if views(before).contains(keys[k]@) {
        let j = choose|j: int| 0 <= j < views(before).len() && views(before)[j] == keys[k]@;
        assert(crate::text::text_below(before[j]@, keys[k]@));
        crate::text::lemma_text_order(keys[k]@, keys[k]@, keys[k]@);
    }
    if tight {
        assert(views(after)[before.len() as int] == keys[k]@);
    }
    assert forall|m: int| 0 <= m < k implies (views(after).contains((#[trigger] keys[m])@) <==> views(
        before,
    ).contains(keys[m]@)) by {
        assert(RegionHint::below(keys[m]@, keys[k]@));
        crate::text::lemma_text_order(keys[k]@, keys[k]@, keys[k]@);
        if views(before).contains(keys[m]@) {
            let j = choose|j: int| 0 <= j < views(before).len() && views(before)[j] == keys[m]@;
            assert(views(after)[j] == keys[m]@);
        }
        if views(after).contains(keys[m]@) {
            let j = choose|j: int| 0 <= j < views(after).len() && views(after)[j] == keys[m]@;
            if j < before.len() {
                assert(views(before)[j] == keys[m]@);
            }
        }
    }
    assert forall|j: int| 0 <= j < after.len() implies among(keys, k + 1, #[trigger] after[j]) by {
        if j < before.len() {
            assert(among(keys, k, before[j]));
            let m = choose|m: int| 0 <= m < k && #[trigger] keys[m] == before[j];
            assert(keys[m] == after[j]);
        } else {
            assert(keys[k] == after[j]);
        }
    }
}

/// Holds the bursts among some actions to `most` nodes in all. Returns the actions, and how many nodes
/// are left to ask for.
fn hold_bursts(actions: Vec<ScaleAction>, most: usize) -> (r: (Vec<ScaleAction>, usize))
    ensures
        action_views(r.0@) == within(action_views(actions@), most as nat),
        r.1 == most - nodes_asked(action_views(r.0@)),
{
    let ghost all = actions@;
    let ghost seen = action_views(all);
    let mut out: Vec<ScaleAction> = Vec::new();
    let mut left: usize = most;
    assert(action_views(out@) =~= Seq::<ActionView>::empty());
    assert(seen.subrange(0, 0) =~= Seq::<ActionView>::empty());
    for action in rest: actions
        invariant
            rest.seq() == all,
            seen == action_views(all),
            action_views(out@) == within(seen.subrange(0, rest.index()), most as nat),
            left == most - nodes_asked(action_views(out@)),
    {
        let ghost done = action_views(out@);
        proof {
            let upto = seen.subrange(0, rest.index() + 1);
            assert(upto.drop_last() =~= seen.subrange(0, rest.index()));
            assert(upto.last() == action@);
        }
        match action {
            ScaleAction::Burst { count, region } => {
                if left > 0 {
                    let granted: usize = if count <= left {
                        count
                    } else {
                        left
                    };
                    left = left - granted;
                    let ghost act = ActionView::Burst { count: granted, region: region@ };
                    out.push(ScaleAction::Burst { count: granted, region });
                    assert(action_views(out@) =~= done.push(act));
                    assert(done.push(act).drop_last() =~= done);
                }
            },
            other => {
                let ghost act = other@;
                out.push(other);
                assert(action_views(out@) =~= done.push(act));
                assert(done.push(act).drop_last() =~= done);
            },
        }
    }
    assert(seen.subrange(0, all.len() as int) =~= seen);
    (out, left)
}

/// A region that is still to come has not asked in this pass.
proof fn lemma_cooldown_untouched(
    regions: Seq<Seq<char>>,
    n: nat,
    cooldown: Map<Seq<char>, u64>,
    epoch: u64,
    policy: AutoscalePolicy,
    most: nat,
    at: int,
)
    requires
        n <= at < regions.len(),
        forall|i: int, j: int|
            0 <= i < j < regions.len() ==> crate::text::text_below(
                #[trigger] regions[i],
                #[trigger] regions[j],
            ),
    ensures
        ({
            let after = cooldown_after(regions, n, cooldown, epoch, policy, most);
            &&& after.contains_key(regions[at]) <==> cooldown.contains_key(regions[at])
            &&& after.contains_key(regions[at]) ==> after[regions[at]] == cooldown[regions[at]]
        }),
    decreases n,
{
    if n > 0 {
        lemma_cooldown_untouched(regions, (n - 1) as nat, cooldown, epoch, policy, most, at);
        assert(crate::text::text_below(regions[n - 1], regions[at]));
        crate::text::lemma_text_order(regions[at], regions[at], regions[at]);
    }
}

/// A pass splits only leaves that it owns and whose load asks for it, and merges into a parent only
/// where it owns the parent and all four children ask for it.
pub proof fn law_acts_only_where_asked(
    o: Observed,
    dwell: Map<CellId, Dwell>,
    leaves: Seq<CellId>,
    n: nat,
    at: int,
)
    requires
        n <= leaves.len(),
        0 <= at < leaf_actions(o, dwell, leaves, n).len(),
    ensures
        match leaf_actions(o, dwell, leaves, n)[at] {
            ActionView::Split { cell, place_on } => leaves.contains(cell) && leaf_verdict(o, cell)
                == Some(Verdict::Split) && place_on.len() == 4,
            ActionView::Merge { parent, place_on } => o.owned.contains(parent) && siblings_cold(
                parent,
                o.loads,
                o.policy,
            ),
            ActionView::Burst { count, region } => count == 4 && region == RegionHint::UNKNOWN@,
            _ => false,
        },
    decreases n,
{
    let before = leaf_actions(o, dwell, leaves, (n - 1) as nat);
    if at < before.len() {
        law_acts_only_where_asked(o, dwell, leaves, (n - 1) as nat, at);
    } else {
        assert(leaves.contains(leaves[n - 1]));
    }
}

/// The children of a split never overfill a node: one that is promised cells has that many free
/// slots and is not redlining.
pub proof fn law_seats_within_headroom(
    hosts: Seq<HostNode>,
    near: Seq<char>,
    n: nat,
    id: Seq<char>,
)
    requires
        seating(hosts, near, Seq::empty(), n) is Some,
    ensures
        ({
            let seats = seating(hosts, near, Seq::empty(), n)->0;
            &&& seats.len() == n
            &&& count_of(seats, id) > 0 ==> exists|i: int|
                0 <= i < hosts.len() && (#[trigger] hosts[i]).node_id@ == id && takes_cell(hosts[i])
                    && count_of(seats, id) <= free_slots_of(hosts[i])
        }),
{
    lemma_seats_within(hosts, near, Seq::empty(), n, id);
}

spec fn has_room(hosts: Seq<HostNode>, id: Seq<char>, count: nat) -> bool {
    exists|i: int|
        0 <= i < hosts.len() && (#[trigger] hosts[i]).node_id@ == id && takes_cell(hosts[i]) && count
            <= free_slots_of(hosts[i])
}

proof fn lemma_seats_within(
    hosts: Seq<HostNode>,
    near: Seq<char>,
    seated: Seq<Seq<char>>,
    n: nat,
    id: Seq<char>,
)
    requires
        seating(hosts, near, seated, n) is Some,
        count_of(seated, id) > 0 ==> has_room(hosts, id, count_of(seated, id)),
    ensures
        ({
            let seats = seating(hosts, near, seated, n)->0;
            &&& seats.len() == seated.len() + n
            &&& count_of(seats, id) > 0 ==> has_room(hosts, id, count_of(seats, id))
        }),
    decreases n,
{
    if n > 0 {
        let at = best_seat(hosts, near, seated)->0;
        let eligible = |h: HostNode| seats_another(h, seated);
        assert(is_best(hosts, near, eligible, at));
        assert(eligible(hosts[at]));
        let next = seated.push(hosts[at].node_id@);
        assert(next.drop_last() =~= seated);
        if hosts[at].node_id@ == id {
            assert(count_of(next, id) == count_of(seated, id) + 1);
            assert(has_room(hosts, id, count_of(next, id)));
        }
        lemma_seats_within(hosts, near, next, (n - 1) as nat, id);
    }
}

/// The memory after the same verdict has come in `k` times.
pub open spec fn dwell_repeated(
    dwell: Map<CellId, Dwell>,
    cell: CellId,
    v: Verdict,
    epochs: u8,
    k: nat,
) -> Map<CellId, Dwell>
    decreases k,
{
    if k == 0 {
        dwell
    } else {
        dwell_after(dwell_repeated(dwell, cell, v, epochs, (k - 1) as nat), cell, v, epochs)
    }
}

/// A cell that steadily wants the same thing gets it in every `epochs`-th pass, and in no other.
pub proof fn law_dwell_period(
    dwell: Map<CellId, Dwell>,
    cell: CellId,
    v: Verdict,
    epochs: u8,
    k: nat,
)
    requires
        v != Verdict::Hold,
        epochs >= 1,
        !dwell.contains_key(cell),
    ensures
        fires(dwell_repeated(dwell, cell, v, epochs, k), cell, v, epochs) <==> (k + 1)
            % (epochs as nat) == 0,
        k > 0 ==> dwell_repeated(dwell, cell, v, epochs, k).contains_pair(
            cell,
            Dwell { last: Some(v), streak: (k % (epochs as nat)) as u8 },
        ),
    decreases k,
{
    let m = epochs as int;
    if k > 0 {
        law_dwell_period(dwell, cell, v, epochs, (k - 1) as nat);
        let j = (k - 1) as int;
        assert((j + 1) % m == (if j % m + 1 == m {
            0
        } else {
            j % m + 1
        })) by (nonlinear_arith)
            requires
                m >= 1,
                j >= 0,
        ;
    }
    let i = k as int;
    assert((i + 1) % m == 0 <==> i % m + 1 == m) by (nonlinear_arith)
        requires
            m >= 1,
            i >= 0,
    ;
    assert(0 <= i % m < m) by (nonlinear_arith)
        requires
            m >= 1,
    ;
    if k == 0 {
        assert(0int % m == 0) by (nonlinear_arith)
            requires
                m >= 1,
        ;
    }
}

proof fn lemma_within(actions: Seq<ActionView>, most: nat)
    ensures
        nodes_asked(within(actions, most)) <= most,
        within(actions, most).len() <= actions.len(),
    decreases actions.len(),
{
    if actions.len() > 0 {
        let rest = actions.drop_last();
        lemma_within(rest, most);
        let done = within(rest, most);
        let all = within(actions, most);
        if all.len() > done.len() {
            assert(all.drop_last() =~= done);
        }
    }
}

/// What is not a burst passes as it is, and where there is enough for all bursts so do they.
pub proof fn law_little_is_held_back(actions: Seq<ActionView>, most: nat)
    ensures
        nodes_asked(actions) <= most ==> nodes_asked(within(actions, most)) == nodes_asked(actions),
        nodes_asked(within(actions, most)) <= nodes_asked(actions),
        within(actions, most).filter(|a: ActionView| !(a is Burst)) == actions.filter(
            |a: ActionView| !(a is Burst),
        ),
    decreases actions.len(),
{
    let p = |a: ActionView| !(a is Burst);
    if actions.len() > 0 {
        let rest = actions.drop_last();
        let x = actions.last();
        law_little_is_held_back(rest, most);
        lemma_within(rest, most);
        let done = within(rest, most);
        let all = within(actions, most);
        assert(actions =~= rest.push(x));
        lemma_filter_push(rest, x, p);
        if all.len() > done.len() {
            assert(all.drop_last() =~= done);
            assert(all =~= done.push(all.last()));
            lemma_filter_push(done, all.last(), p);
        }
    }
}

proof fn lemma_bursts_within(
    regions: Seq<Seq<char>>,
    n: nat,
    cooldown: Map<Seq<char>, u64>,
    epoch: u64,
    policy: AutoscalePolicy,
    most: nat,
)
    requires
        n <= regions.len(),
    ensures
        ({
            let asked = burst_actions(regions, n, cooldown, epoch, policy, most);
            &&& nodes_asked(asked) <= most
            &&& forall|i: int|
                0 <= i < asked.len() ==> (#[trigger] asked[i] matches ActionView::Burst {
                    count,
                    region,
                } && 0 < count <= 8 && regions.contains(region))
        }),
    decreases n,
{
    if n > 0 {
        lemma_bursts_within(regions, (n - 1) as nat, cooldown, epoch, policy, most);
        let done = burst_actions(regions, (n - 1) as nat, cooldown, epoch, policy, most);
        let asked = burst_actions(regions, n, cooldown, epoch, policy, most);
        assert(regions.contains(regions[n - 1]));
        if asked.len() > done.len() {
            assert(asked.drop_last() =~= done);
        }
    }
}

proof fn lemma_asked_add(a: Seq<ActionView>, b: Seq<ActionView>)
    ensures
        nodes_asked(a + b) == nodes_asked(a) + nodes_asked(b),
    decreases b.len(),
{
    if b.len() == 0 {
        assert(a + b =~= a);
    } else {
        lemma_asked_add(a, b.drop_last());
        assert((a + b).drop_last() =~= a + b.drop_last());
        assert((a + b).last() == b.last());
    }
}

proof fn lemma_no_bursts(actions: Seq<ActionView>)
    requires
        forall|i: int| 0 <= i < actions.len() ==> !((#[trigger] actions[i]) is Burst),
    ensures
        nodes_asked(actions) == 0,
    decreases actions.len(),
{
    if actions.len() > 0 {
        assert(!(actions[actions.len() - 1] is Burst));
        assert forall|i: int| 0 <= i < actions.drop_last().len() implies !((
        #[trigger] actions.drop_last()[i]) is Burst) by {
            assert(!(actions[i] is Burst));
        }
        lemma_no_bursts(actions.drop_last());
    }
}

/// A pass does not stampede the cloud: all that it asks for stays within the most that one pass may.
pub proof fn law_bursts_are_guarded(
    before: Autoscaler,
    after: Autoscaler,
    actions: Seq<ScaleAction>,
    epoch: u64,
    leaves: Seq<CellId>,
    o: Observed,
)
    requires
        decided(before, after, actions, epoch, leaves, o),
    ensures
        nodes_asked(action_views(actions)) <= before.policy.max_burst_per_pass,
{
    let policy = before.policy;
    let most = policy.max_burst_per_pass as nat;
    let regions = choose|regions: Seq<Seq<char>>| #[trigger]
        are_tight_regions(regions, o.hosts, policy.burst_below_permille) && outcome(
            o,
            before.dwell@,
            leaves,
            regions,
            before.burst_cooldown@,
            epoch,
            policy,
        ) == (action_views(actions), after.burst_cooldown@);
    let wanted = leaf_actions(o, before.dwell@, leaves, leaves.len());
    let by_leaf = within(wanted, most);
    lemma_within(wanted, most);
    let left = (most - nodes_asked(by_leaf)) as nat;
    let fleet_wide = elasticity(
        o.hosts,
        regions,
        before.burst_cooldown@,
        epoch,
        policy,
        left,
    ).0;
    lemma_bursts_within(regions, regions.len(), before.burst_cooldown@, epoch, policy, left);
    lemma_asked_add(by_leaf, fleet_wide);
    assert(nodes_asked(fleet_wide) <= left) by {
        if fleet_wide == retire_actions(o.hosts) {
            assert forall|i: int| 0 <= i < fleet_wide.len() implies !((
            #[trigger] fleet_wide[i]) is Burst) by {
            }
            lemma_no_bursts(fleet_wide);
        }
    }
}

/// A tight region that has asked for nodes does not ask again before the cooldown is over.
pub proof fn law_bursts_cool_down(
    regions: Seq<Seq<char>>,
    n: nat,
    at: int,
    cooldown: Map<Seq<char>, u64>,
    epoch: u64,
    later: u64,
    policy: AutoscalePolicy,
    most: nat,
)
    requires
        0 <= at < n <= regions.len(),
        cooled_down(cooldown, regions[at], epoch, policy.burst_cooldown_epochs),
        nodes_asked(burst_actions(regions, at as nat, cooldown, epoch, policy, most)) < most,
        epoch <= later < epoch + policy.burst_cooldown_epochs,
    ensures
        ({
            let after = cooldown_after(regions, n, cooldown, epoch, policy, most);
            &&& after.contains_pair(regions[at], epoch)
            &&& !cooled_down(after, regions[at], later, policy.burst_cooldown_epochs)
        }),
    decreases n,
{
    if at < n - 1 {
        law_bursts_cool_down(regions, (n - 1) as nat, at, cooldown, epoch, later, policy, most);
    }
}

/// A verdict that changes starts its count anew, one that stays counts on, a calm cell is forgotten; and what is
/// remembered of other cells stays.
pub proof fn law_only_a_lasting_verdict_counts(
    dwell: Map<CellId, Dwell>,
    cell: CellId,
    other: CellId,
    v: Verdict,
    epochs: u8,
)
    requires
        other != cell,
    ensures
        !fires(dwell, cell, Verdict::Hold, epochs),
        !dwell_after(dwell, cell, Verdict::Hold, epochs).contains_key(cell),
        !dwell.contains_key(cell) ==> streak_after(dwell, cell, v) == 1,
        dwell.contains_key(cell) && dwell[cell].last != Some(v) ==> streak_after(dwell, cell, v) == 1,
        dwell.contains_key(cell) && dwell[cell].last == Some(v) ==> streak_after(dwell, cell, v)
            == dwell[cell].streak + 1,
        dwell_after(dwell, cell, v, epochs).contains_key(other) <==> dwell.contains_key(other),
        dwell.contains_key(other) ==> dwell_after(dwell, cell, v, epochs)[other] == dwell[other],
        v != Verdict::Hold && epochs <= 1 ==> fires(dwell, cell, v, epochs),
{
}

/// An overloaded leaf is acted upon: once its verdict has lasted, a leaf that this node owns and that has reached
/// the threshold of any measure is split over four nodes, or, where they have no room for its quarters, four nodes
/// are asked for.
pub proof fn law_overload_is_acted_upon(
    o: Observed,
    dwell: Map<CellId, Dwell>,
    leaves: Seq<CellId>,
    n: nat,
    load: CellLoad,
)
    requires
        n < leaves.len(),
        o.owned.contains(leaves[n as int]),
        o.loads.contains_pair(leaves[n as int], load),
        leaves[n as int].depth < 30,
        load.players >= o.policy.split_players || load.entities >= o.policy.split_entities
            || load.tick_p99_us >= o.policy.split_tick_us || load.bandwidth_bps
            >= o.policy.split_bandwidth_bps,
        streak_after(dwell_pass(o, dwell, leaves, n), leaves[n as int], Verdict::Split)
            >= o.policy.dwell_epochs,
    ensures
        ({
            let before = leaf_actions(o, dwell, leaves, n);
            let after = leaf_actions(o, dwell, leaves, n + 1);
            &&& after.len() == before.len() + 1
            &&& after.drop_last() == before
            &&& match after.last() {
                ActionView::Split { cell, place_on } => cell == leaves[n as int] && place_on.len() == 4
                    && seating(o.hosts, RegionHint::UNKNOWN@, Seq::empty(), 4) == Some(place_on),
                ActionView::Burst { count, region } => count == 4 && seating(
                    o.hosts,
                    RegionHint::UNKNOWN@,
                    Seq::empty(),
                    4,
                ) is None,
                _ => false,
            }
        }),
{
    let leaf = leaves[n as int];
    crate::galaxy::law_any_measure_splits(load, leaf.depth, o.policy);
    assert(leaf_verdict(o, leaf) == Some(Verdict::Split));
    if seating(o.hosts, RegionHint::UNKNOWN@, Seq::empty(), 4) is Some {
        lemma_seats_within(o.hosts, RegionHint::UNKNOWN@, Seq::empty(), 4, Seq::empty());
    }
    let before = leaf_actions(o, dwell, leaves, n);
    let after = leaf_actions(o, dwell, leaves, n + 1);
    assert(after.drop_last() =~= before);
}

/// Four siblings that all ask for it are merged into their parent, on a host that takes a cell, where this node owns
/// the parent; where one of them has not been heard of or does not ask, nothing happens.
pub proof fn law_calm_siblings_merge(o: Observed, leaf: CellId, parent: CellId, at: int)
    requires
        parent_of(leaf) == Some(parent),
        o.owned.contains(parent),
        best_seat(o.hosts, RegionHint::UNKNOWN@, Seq::empty()) == Some(at),
    ensures
        (forall|i: int|
            0 <= i < children_of(parent).len() ==> o.loads.contains_key(
                #[trigger] children_of(parent)[i],
            ) && o.loads[children_of(parent)[i]].verdict_for(
                children_of(parent)[i].depth,
                &o.policy,
            ) == Verdict::Merge) ==> leaf_action(o, leaf, Verdict::Merge) == seq![
            ActionView::Merge { parent, place_on: o.hosts[at].node_id@ },
        ],
        (exists|i: int|
            0 <= i < children_of(parent).len() && !o.loads.contains_key(
                #[trigger] children_of(parent)[i],
            )) ==> leaf_action(o, leaf, Verdict::Merge).len() == 0,
        leaf_action(o, leaf, Verdict::Hold).len() == 0,
        0 <= at < o.hosts.len(),
        o.hosts[at].cells < o.hosts[at].cell_budget,
        o.hosts[at].load_permille < 850,
{
    let near = RegionHint::UNKNOWN@;
    let eligible = |n: HostNode| seats_another(n, Seq::empty());
    assert(is_best(o.hosts, near, eligible, at));
    assert(eligible(o.hosts[at]));
    if exists|i: int|
        0 <= i < children_of(parent).len() && !o.loads.contains_key(
            #[trigger] children_of(parent)[i],
        ) {
        let i = choose|i: int|
            0 <= i < children_of(parent).len() && !o.loads.contains_key(
                #[trigger] children_of(parent)[i],
            );
        assert(!child_cold(children_of(parent)[i], o.loads, o.policy));
    }
    if forall|i: int|
        0 <= i < children_of(parent).len() ==> o.loads.contains_key(
            #[trigger] children_of(parent)[i],
        ) && o.loads[children_of(parent)[i]].verdict_for(
            children_of(parent)[i].depth,
            &o.policy,
        ) == Verdict::Merge {
        assert(siblings_cold(parent, o.loads, o.policy));
    }
}

/// Nodes that this node does not own, and nodes whose load is unknown, are left alone.
pub proof fn law_unowned_leaves_are_left_alone(o: Observed, dwell: Map<CellId, Dwell>, leaves: Seq<CellId>, n: nat)
    requires
        n < leaves.len(),
        !o.owned.contains(leaves[n as int]) || !o.loads.contains_key(leaves[n as int]),
    ensures
        leaf_actions(o, dwell, leaves, n + 1) == leaf_actions(o, dwell, leaves, n),
        dwell_pass(o, dwell, leaves, n + 1) == dwell_pass(o, dwell, leaves, n),
{
}

/// Whether a region is tight is its own affair: a host elsewhere changes nothing, one more full host makes no
/// region roomier, and a region without slots is never tight.
pub proof fn law_regions_stand_alone(hosts: Seq<HostNode>, h: HostNode, region: Seq<char>, permille: u32)
    ensures
        h.region@ != region ==> region_tight(hosts.push(h), region, permille) == region_tight(
            hosts,
            region,
            permille,
        ),
        h.region@ == region ==> hosts_in(hosts.push(h), region) == hosts_in(hosts, region).push(h),
        region_tight(hosts, region, permille) <==> {
            let (free, all) = (free_sum(hosts_in(hosts, region)), budget_sum(hosts_in(hosts, region)));
            all > 0 && 1000 * free < permille * all
        },
{
    crate::sort::lemma_filter_push(hosts, h, in_region(region));
    let (free, all) = (free_sum(hosts_in(hosts, region)), budget_sum(hosts_in(hosts, region)));
    assert(all * permille == permille * all) by (nonlinear_arith);
}

/// A region that has asked for nodes waits so many epochs before it asks again, and not one more.
pub proof fn law_cooldown(cooldown: Map<Seq<char>, u64>, region: Seq<char>, at: u64, epoch: u64, epochs: u8)
    requires
        at <= epoch,
    ensures
        cooled_down(cooldown.insert(region, at), region, epoch, epochs) <==> epoch >= at + epochs,
        !cooldown.contains_key(region) ==> cooled_down(cooldown, region, epoch, epochs),
{
}

/// While the fleet is tight, a tight region that has cooled down asks for eight nodes, or for as many as the pass
/// has left; one that has not, or where nothing is left, asks for none.
pub proof fn law_tight_regions_ask(
    regions: Seq<Seq<char>>,
    n: nat,
    cooldown: Map<Seq<char>, u64>,
    epoch: u64,
    policy: AutoscalePolicy,
    most: nat,
)
    requires
        n < regions.len(),
        most <= usize::MAX,
    ensures
        ({
            let before = burst_actions(regions, n, cooldown, epoch, policy, most);
            let after = burst_actions(regions, n + 1, cooldown, epoch, policy, most);
            let asks = nodes_asked(before) < most && (!cooldown.contains_key(regions[n as int]) || epoch
                >= cooldown[regions[n as int]] + policy.burst_cooldown_epochs
                || policy.burst_cooldown_epochs == 0);
            &&& !asks ==> after == before
            &&& asks ==> after.len() == before.len() + 1 && after.drop_last() == before && (
            after.last() matches ActionView::Burst { count, region } && region == regions[n as int]
                && 1 <= count <= 8 && (count == 8 || nodes_asked(before) + count == most)
                && nodes_asked(before) + count <= most)
        }),
        burst_actions(regions, 0, cooldown, epoch, policy, most).len() == 0,
{
    let before = burst_actions(regions, n, cooldown, epoch, policy, most);
    let after = burst_actions(regions, n + 1, cooldown, epoch, policy, most);
    if after.len() > before.len() {
        assert(after.drop_last() =~= before);
    }
}

/// What a pass does for the fleet as a whole: while too few slots are free it only asks for nodes, while too many are
/// it only gives back the rented nodes that run nothing, each of them, and in between it does neither.
pub proof fn law_elasticity(
    hosts: Seq<HostNode>,
    regions: Seq<Seq<char>>,
    cooldown: Map<Seq<char>, u64>,
    epoch: u64,
    policy: AutoscalePolicy,
    most: nat,
    at: int,
)
    requires
        budget_sum(hosts) > 0,
        policy.burst_below_permille <= policy.retire_above_permille,
        0 <= at < hosts.len(),
    ensures
        ({
            let (actions, after) = elasticity(hosts, regions, cooldown, epoch, policy, most);
            let (free, all) = (1000 * free_sum(hosts), budget_sum(hosts));
            let give_back = ActionView::Retire { node: hosts[at].node_id@ };
            &&& free < policy.burst_below_permille * all ==> (forall|i: int|
                0 <= i < actions.len() ==> #[trigger] actions[i] is Burst)
            &&& policy.burst_below_permille * all <= free && free <= policy.retire_above_permille * all
                ==> actions.len() == 0
            &&& free >= policy.burst_below_permille * all ==> after == cooldown
            &&& free > policy.retire_above_permille * all ==> (forall|i: int|
                0 <= i < actions.len() ==> #[trigger] actions[i] is Retire)
            &&& free > policy.retire_above_permille * all && hosts[at].source is CloudBurst
                && hosts[at].cells == 0 ==> actions.contains(give_back)
            &&& actions.contains(give_back) ==> exists|j: int|
                0 <= j < hosts.len() && (#[trigger] hosts[j]).node_id@ == hosts[at].node_id@
                    && hosts[j].source is CloudBurst && hosts[j].cells == 0
        }),
{
    let (free, all) = (free_sum(hosts) as int, budget_sum(hosts) as int);
    let (low, high) = (policy.burst_below_permille as int, policy.retire_above_permille as int);
    assert(low * all == all * low && high * all == all * high) by (nonlinear_arith);
    assert(low * all <= high * all) by (nonlinear_arith)
        requires
            low <= high,
            all > 0,
    ;
    let (actions, after) = elasticity(hosts, regions, cooldown, epoch, policy, most);
    let bursts = burst_actions(regions, regions.len(), cooldown, epoch, policy, most);
    lemma_only_bursts(regions, regions.len(), cooldown, epoch, policy, most);
    let p = |n: HostNode| is_idle_burst(n);
    let f = |n: HostNode| ActionView::Retire { node: n.node_id@ };
    let idle = hosts.filter(p);
    let give_back = ActionView::Retire { node: hosts[at].node_id@ };
    if tighter_than(free, all, low) {
        if actions.contains(give_back) {
            let i = choose|i: int| 0 <= i < actions.len() && actions[i] == give_back;
            assert(actions[i] is Burst);
        }
    } else if roomier_than(free, all, high) {
        assert(actions == idle.map_values(f));
        if is_idle_burst(hosts[at]) {
            assert(hosts.contains(hosts[at]));
            crate::sort::lemma_filter_holds(hosts, p, hosts[at]);
            let i = choose|i: int| 0 <= i < idle.len() && idle[i] == hosts[at];
            assert(actions[i] == give_back);
        }
        if actions.contains(give_back) {
            let i = choose|i: int| 0 <= i < actions.len() && actions[i] == give_back;
            assert(idle.contains(idle[i]));
            crate::sort::lemma_filter_holds(hosts, p, idle[i]);
            let j = choose|j: int| 0 <= j < hosts.len() && hosts[j] == idle[i];
            assert(hosts[j].node_id@ == hosts[at].node_id@);
        }
    }
}

proof fn lemma_only_bursts(
    regions: Seq<Seq<char>>,
    n: nat,
    cooldown: Map<Seq<char>, u64>,
    epoch: u64,
    policy: AutoscalePolicy,
    most: nat,
)
    ensures
        forall|i: int|
            0 <= i < burst_actions(regions, n, cooldown, epoch, policy, most).len()
                ==> #[trigger] burst_actions(regions, n, cooldown, epoch, policy, most)[i] is Burst,
    decreases n,
{
    if n > 0 {
        lemma_only_bursts(regions, (n - 1) as nat, cooldown, epoch, policy, most);
        let before = burst_actions(regions, (n - 1) as nat, cooldown, epoch, policy, most);
        let all = burst_actions(regions, n, cooldown, epoch, policy, most);
        assert forall|i: int| 0 <= i < all.len() implies #[trigger] all[i] is Burst by {
            if i < before.len() {
                assert(all[i] == before[i]);
            }
        }
    }
}

/// A host sheds a cell only while its load is over 90 percent and one can be moved; it goes to another host, which
/// has room for it, or nowhere.
pub proof fn law_shedding(hosts: Seq<HostNode>, hot: HostNode, pick: Option<CellId>)
    ensures
        hot.load_permille <= 900 ==> shed_action(hosts, hot, pick).len() == 0,
        pick is None ==> shed_action(hosts, hot, pick).len() == 0,
        shed_action(hosts, hot, pick).len() <= 1,
        shed_action(hosts, hot, pick).len() == 1 ==> {
            &&& shed_action(hosts, hot, pick)[0] matches ActionView::Migrate { cell, from, to }
                && pick == Some(cell) && from == hot.node_id@ && to != from && exists|i: int|
                0 <= i < hosts.len() && (#[trigger] hosts[i]).node_id@ == to && hosts[i].cells
                    < hosts[i].cell_budget && hosts[i].load_permille < 850
        },
        hot.load_permille > 900 && pick is Some && (best_seat(hosts, hot.region@, Seq::empty()) matches Some(
            at,
        ) && hosts[at].node_id@ != hot.node_id@) ==> shed_action(hosts, hot, pick).len() == 1,
{
    if let Some(at) = best_seat(hosts, hot.region@, Seq::empty()) {
        let eligible = |n: HostNode| seats_another(n, Seq::empty());
        assert(is_best(hosts, hot.region@, eligible, at));
        assert(eligible(hosts[at]));
    }
}

/// What a pass asks for is the sum of its bursts.
pub proof fn law_asked_is_a_sum(actions: Seq<ActionView>, a: ActionView)
    ensures
        nodes_asked(Seq::empty()) == 0,
        a matches ActionView::Burst { count, region } ==> nodes_asked(actions.push(a)) == nodes_asked(
            actions,
        ) + count,
        !(a is Burst) ==> nodes_asked(actions.push(a)) == nodes_asked(actions),
{
    assert(actions.push(a).drop_last() =~= actions);
}

/// A cell is seated whenever some host has a slot for it beyond those that were given out, and on such a host; of these on none that comes after another.
pub proof fn law_a_seat_is_found(hosts: Seq<HostNode>, near: Seq<char>, seated: Seq<Seq<char>>, j: int)
    requires
        0 <= j < hosts.len(),
        takes_cell(hosts[j]),
        free_slots_of(hosts[j]) > count_of(seated, hosts[j].node_id@),
    ensures
        best_seat(hosts, near, seated) matches Some(at) && 0 <= at < hosts.len() && takes_cell(hosts[at])
            && free_slots_of(hosts[at]) > count_of(seated, hosts[at].node_id@)
            && crate::fleet::placement_rank(hosts[at], near) <= crate::fleet::placement_rank(hosts[j], near),
{
    let eligible = |n: HostNode| seats_another(n, seated);
    assert(eligible(hosts[j]));
    crate::fleet::law_some_host_is_best(hosts, near, eligible, j);
    let at = best_seat(hosts, near, seated)->0;
    assert(is_best(hosts, near, eligible, at));
    assert(eligible(hosts[at]));
}

/// Seats are given out one after the other: those that were given stay, and there are as many more as were asked for.
pub proof fn law_seats_are_given_in_turn(hosts: Seq<HostNode>, near: Seq<char>, seated: Seq<Seq<char>>, n: nat)
    requires
        seating(hosts, near, seated, n) is Some,
    ensures
        seating(hosts, near, seated, n)->0.len() == seated.len() + n,
        seating(hosts, near, seated, n)->0.subrange(0, seated.len() as int) == seated,
        forall|i: int|
            seated.len() <= i < seated.len() + n ==> exists|at: int|
                0 <= at < hosts.len() && takes_cell(hosts[at]) && (#[trigger] hosts[at]).node_id@
                    == #[trigger] seating(hosts, near, seated, n)->0[i],
    decreases n,
{
    let all = seating(hosts, near, seated, n)->0;
    if n > 0 {
        let at = best_seat(hosts, near, seated)->0;
        let eligible = |h: HostNode| seats_another(h, seated);
        assert(is_best(hosts, near, eligible, at));
        assert(eligible(hosts[at]));
        let more = seated.push(hosts[at].node_id@);
        law_seats_are_given_in_turn(hosts, near, more, (n - 1) as nat);
        assert(all.subrange(0, more.len() as int) == more);
        assert(all.subrange(0, seated.len() as int) =~= seated) by {
            assert forall|i: int| 0 <= i < seated.len() implies all[i] == seated[i] by {
                assert(all.subrange(0, more.len() as int)[i] == more[i]);
            }
        }
        assert forall|i: int| seated.len() <= i < seated.len() + n implies exists|at: int|
            0 <= at < hosts.len() && takes_cell(hosts[at]) && (#[trigger] hosts[at]).node_id@
                == #[trigger] all[i] by {
            if i == seated.len() {
                assert(all.subrange(0, more.len() as int)[i] == more[i]);
                assert(hosts[at].node_id@ == all[i]);
            }
        }
    } else {
        assert(all.subrange(0, seated.len() as int) =~= seated);
    }
}

} // verus!
