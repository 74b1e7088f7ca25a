//! The elastic fleet: the nodes that host cells, and how a host is chosen.
//!
//! Capacity is donated by volunteers or provisioned in a cloud for a surge. A cell goes to a node near
//! its crowd that has a free slot and is not redlining, a donor before a rented node, the cheaper one
//! before the dearer.
use vstd::prelude::*;
use vstd::string::*;

use crate::galaxy::CellId;
use crate::order::Ordered;
use crate::sort::{sort_stably, stably_sorted, Ranked};
use crate::text::{lemma_text_order, same_text, text_below, text_less};

verus! {

/// A node's id on the mesh, in hexadecimal.
pub type NodeId = String;

/// At and above this load, in thousandths, a node takes no further cell.
pub const REDLINE_PERMILLE: u32 = 850;

/// Where a host came from. Donated nodes are never destroyed by the fleet, rented ones are.
#[derive(Debug, PartialEq, Eq)]
pub enum CapacitySource {
    /// A volunteer node that is on the mesh already.
    Donated,
    /// A node that was provisioned for a surge.
    CloudBurst { provider: String, region: String, instance_id: String },
}

/// A coarse place, from clusters of measured latency.
#[derive(Debug, PartialEq, Eq, Hash)]
pub struct RegionHint(pub String);

impl View for RegionHint {
    type V = Seq<char>;

    open spec fn view(&self) -> Seq<char> {
        self.0@
    }
}

impl Clone for RegionHint {
    fn clone(&self) -> (r: Self)
        ensures
            r == *self,
    {
        RegionHint(self.0.clone())
    }
}

impl RegionHint {
    pub const UNKNOWN: &'static str = "unknown";

    /// The region of a node whose place nobody has measured.
    pub fn unknown() -> (r: RegionHint)
        ensures
            r@ == RegionHint::UNKNOWN@,
    {
        RegionHint(RegionHint::UNKNOWN.to_string())
    }

    pub fn same(&self, other: &RegionHint) -> (r: bool)
        ensures
            r == (self@ == other@),
    {
        same_text(self.0.as_str(), other.0.as_str())
    }
}

impl Ordered for RegionHint {
    open spec fn below(a: Seq<char>, b: Seq<char>) -> bool {
        text_below(a, b)
    }

    fn is_below(&self, other: &Self) -> (r: bool) {
        text_less(self.0.as_str(), other.0.as_str())
    }

    proof fn below_irreflexive(a: Seq<char>) {
        lemma_text_order(a, a, a);
    }

    proof fn below_transitive(a: Seq<char>, b: Seq<char>, c: Seq<char>) {
        lemma_text_order(a, b, c);
    }

    proof fn below_total(a: Seq<char>, b: Seq<char>) {
        lemma_text_order(a, b, a);
    }
}

/// A node that the fleet can place cells on.
#[derive(Debug)]
pub struct HostNode {
    pub node_id: NodeId,
    pub source: CapacitySource,
    pub cores: u32,
    pub mem_mb: u64,
    pub region: RegionHint,
    /// Cells that the node runs.
    pub cells: u32,
    /// Soft cap on the cells of the node.
    pub cell_budget: u32,
    /// Smoothed load in thousandths.
    pub load_permille: u32,
    /// What the node asks for a cell-minute, in credits.
    pub price_per_min: u64,
    /// When the node was last known to be alive, in seconds since 1970.
    pub last_seen: u64,
}

/// Free cell slots: the budget less the cells, and none where the cells exceed the budget.
pub open spec fn free_slots_of(n: HostNode) -> nat {
    if n.cells <= n.cell_budget {
        (n.cell_budget - n.cells) as nat
    } else {
        0
    }
}

/// The node may be given another cell.
pub open spec fn takes_cell(n: HostNode) -> bool {
    free_slots_of(n) > 0 && n.load_permille < REDLINE_PERMILLE
}

/// How a host ranks for a crowd in a region; the lowest number is the best. What weighs first is
/// being in the region, then being donated, then the price, then how many cells it runs.
pub open spec fn placement_rank(n: HostNode, near: Seq<char>) -> int {
    let away: int = if n.region@ == near {
        0
    } else {
        1
    };
    let rented: int = if n.source is CloudBurst {
        1
    } else {
        0
    };
    ((away * 2 + rented) * 0x1_0000_0000_0000_0000 + n.price_per_min) * 0x1_0000_0000 + n.cells
}

/// The host at `at` is the best of those that are eligible, the first of them on a tie.
pub open spec fn is_best(
    hosts: Seq<HostNode>,
    near: Seq<char>,
    eligible: spec_fn(HostNode) -> bool,
    at: int,
) -> bool {
    &&& 0 <= at < hosts.len()
    &&& eligible(hosts[at])
    &&& forall|j: int|
        0 <= j < hosts.len() && eligible(#[trigger] hosts[j]) ==> {
            &&& placement_rank(hosts[at], near) <= placement_rank(hosts[j], near)
            &&& j < at ==> placement_rank(hosts[at], near) < placement_rank(hosts[j], near)
        }
}

impl HostNode {
    /// Free cell slots.
    pub fn headroom(&self) -> (n: u32)
        ensures
            n == free_slots_of(*self),
    {
        self.cell_budget.saturating_sub(self.cells)
    }

    pub fn is_burst(&self) -> (r: bool)
        ensures
            r == (self.source is CloudBurst),
    {
        match &self.source {
            CapacitySource::CloudBurst { provider, region, instance_id } => true,
            CapacitySource::Donated => false,
        }
    }

    /// May the node be given another cell: it has a free slot and is not redlining.
    pub fn can_take_cell(&self) -> (r: bool)
        ensures
            r == takes_cell(*self),
    {
        self.headroom() > 0 && self.load_permille < REDLINE_PERMILLE
    }

    pub fn placement_key(&self, near: &RegionHint) -> (k: u128)
        ensures
            k == placement_rank(*self, near@),
    {
        let away: u128 = if self.region.same(near) {
            0
        } else {
            1
        };
        let rented: u128 = if self.is_burst() {
            1
        } else {
            0
        };
        ((away * 2 + rented) * 0x1_0000_0000_0000_0000 + self.price_per_min as u128) * 0x1_0000_0000
            + self.cells as u128
    }
}

/// The capacity of the whole fleet.
#[derive(Debug, Clone, Copy, PartialEq, Eq, Structural)]
pub struct Headroom {
    pub free_slots: u32,
    pub total_slots: u32,
    pub burst_nodes: u32,
    pub donor_nodes: u32,
}

/// Less than `permille` thousandths of the slots are free. A fleet without slots has none free.
pub open spec fn tighter_than(free: int, total: int, permille: int) -> bool {
    if total == 0 {
        0 < permille
    } else {
        free * 1000 < total * permille
    }
}

/// More than `permille` thousandths of the slots are free.
pub open spec fn roomier_than(free: int, total: int, permille: int) -> bool {
    total != 0 && free * 1000 > total * permille
}

impl Headroom {
    /// The part of the slots that is free, in thousandths, rounded down: 0 is a full fleet.
    pub fn slack(&self) -> (permille: u64)
        ensures
            permille == (if self.total_slots == 0 {
                0
            } else {
                (self.free_slots * 1000) as int / self.total_slots as int
            }),
    {
        if self.total_slots == 0 {
            0
        } else {
            self.free_slots as u64 * 1000 / self.total_slots as u64
        }
    }

    pub fn slack_below(&self, permille: u32) -> (r: bool)
        ensures
            r == tighter_than(
                self.free_slots as int,
                self.total_slots as int,
                permille as int,
            ),
    {
        slots_tighter_than(self.free_slots, self.total_slots, permille)
    }

    pub fn slack_above(&self, permille: u32) -> (r: bool)
        ensures
            r == roomier_than(
                self.free_slots as int,
                self.total_slots as int,
                permille as int,
            ),
    {
        proof {
            lemma_product_fits(self.total_slots, permille);
        }
        self.total_slots != 0 && self.free_slots as u64 * 1000 > self.total_slots as u64
            * permille as u64
    }
}

proof fn lemma_product_fits(a: u32, b: u32)
    ensures
        0 <= a * b <= u64::MAX,
{
    assert(0 <= a * b <= 0xffff_ffff * 0xffff_ffff) by (nonlinear_arith)
        requires
            0 <= a <= 0xffff_ffff,
            0 <= b <= 0xffff_ffff,
    ;
}

pub fn slots_tighter_than(free: u32, total: u32, permille: u32) -> (r: bool)
    ensures
        r == tighter_than(free as int, total as int, permille as int),
{
    proof {
        lemma_product_fits(total, permille);
    }
    if total == 0 {
        0 < permille
    } else {
        (free as u64 * 1000) < total as u64 * permille as u64
    }
}

/// The slots of all hosts together.
pub open spec fn budget_sum(hosts: Seq<HostNode>) -> nat
    decreases hosts.len(),
{
    if hosts.len() == 0 {
        0
    } else {
        budget_sum(hosts.drop_last()) + hosts.last().cell_budget as nat
    }
}

/// The free slots of all hosts together.
pub open spec fn free_sum(hosts: Seq<HostNode>) -> nat
    decreases hosts.len(),
{
    if hosts.len() == 0 {
        0
    } else {
        free_sum(hosts.drop_last()) + free_slots_of(hosts.last())
    }
}

/// How many hosts are rented.
pub open spec fn rented_count(hosts: Seq<HostNode>) -> nat
    decreases hosts.len(),
{
    if hosts.len() == 0 {
        0
    } else {
        rented_count(hosts.drop_last()) + (if hosts.last().source is CloudBurst {
            1nat
        } else {
            0nat
        })
    }
}

pub proof fn lemma_sums(hosts: Seq<HostNode>, n: int)
    requires
        0 <= n <= hosts.len(),
    ensures
        budget_sum(hosts.subrange(0, n)) <= budget_sum(hosts),
        free_sum(hosts.subrange(0, n)) <= budget_sum(hosts.subrange(0, n)),
        rented_count(hosts.subrange(0, n)) <= n,
    decreases hosts.len(),
{
    if n == hosts.len() {
        assert(hosts.subrange(0, n) =~= hosts);
        if n > 0 {
            lemma_sums(hosts.drop_last(), n - 1);
            assert(hosts.drop_last().subrange(0, n - 1) =~= hosts.drop_last());
        }
    } else {
        lemma_sums(hosts.drop_last(), n);
        assert(hosts.drop_last().subrange(0, n) =~= hosts.subrange(0, n));
    }
}

/// The fleet: the hosts that are known to be alive.
pub struct Fleet {
    pub hosts: Vec<HostNode>,
    /// The image and boot script that a provisioned node starts with.
    pub cell_boot: String,
}

/// What is left of a rented node that is drained: the instance to destroy at its provider.
#[derive(Debug, PartialEq, Eq)]
pub struct Retired {
    pub provider: String,
    pub instance_id: String,
}

/// The hosts once a node has been drained: it gets no new cells, and a rented node without cells is
/// gone.
pub open spec fn drained(hosts: Seq<HostNode>, node_id: Seq<char>) -> Seq<HostNode> {
    capped(hosts, node_id).filter(|n: HostNode| keeps_after_drain(n, node_id))
}

pub open spec fn keeps_after_drain(n: HostNode, node_id: Seq<char>) -> bool {
    n.node_id@ != node_id || !(n.source is CloudBurst) || n.cells > 0
}

/// The first host of that id has its budget cut to the cells that it runs.
pub open spec fn capped(hosts: Seq<HostNode>, node_id: Seq<char>) -> Seq<HostNode> {
    match first_host(hosts, node_id) {
        Some(i) => hosts.update(
            i,
            HostNode { cell_budget: hosts[i].cells, ..hosts[i] },
        ),
        None => hosts,
    }
}

/// Where the first host of an id stands.
pub open spec fn first_host(hosts: Seq<HostNode>, node_id: Seq<char>) -> Option<int>
    decreases hosts.len(),
{
    if hosts.len() == 0 {
        None
    } else {
        match first_host(hosts.drop_last(), node_id) {
            Some(i) => Some(i),
            None => if hosts.last().node_id@ == node_id {
                Some(hosts.len() - 1)
            } else {
                None
            },
        }
    }
}

proof fn lemma_first_host(hosts: Seq<HostNode>, node_id: Seq<char>)
    ensures
        match first_host(hosts, node_id) {
            Some(i) => 0 <= i < hosts.len() && hosts[i].node_id@ == node_id && (forall|j: int|
                0 <= j < i ==> (#[trigger] hosts[j]).node_id@ != node_id),
            None => forall|j: int|
                0 <= j < hosts.len() ==> (#[trigger] hosts[j]).node_id@ != node_id,
        },
    decreases hosts.len(),
{
    if hosts.len() > 0 {
        let rest = hosts.drop_last();
        lemma_first_host(rest, node_id);
        assert forall|j: int| 0 <= j < rest.len() implies (#[trigger] hosts[j]) == rest[j] by {
        }
    }
}

impl Fleet {
    /// Free and used capacity over donors and rented nodes.
    pub fn headroom(&self) -> (h: Headroom)
        requires
            budget_sum(self.hosts@) <= u32::MAX,
            self.hosts@.len() <= u32::MAX,
        ensures
            h.free_slots == free_sum(self.hosts@),
            h.total_slots == budget_sum(self.hosts@),
            h.burst_nodes == rented_count(self.hosts@),
            h.donor_nodes == self.hosts@.len() - rented_count(self.hosts@),
    {
        let mut h = Headroom { free_slots: 0, total_slots: 0, burst_nodes: 0, donor_nodes: 0 };
        let mut i: usize = 0;
        while i < self.hosts.len()
            invariant
                i <= self.hosts@.len() <= u32::MAX,
                budget_sum(self.hosts@) <= u32::MAX,
                h.free_slots == free_sum(self.hosts@.subrange(0, i as int)),
                h.total_slots == budget_sum(self.hosts@.subrange(0, i as int)),
                h.burst_nodes == rented_count(self.hosts@.subrange(0, i as int)),
                h.donor_nodes == i - h.burst_nodes,
            decreases self.hosts@.len() - i,
        {
            let n = &self.hosts[i];
            proof {
                lemma_sums(self.hosts@, i + 1);
                assert(self.hosts@.subrange(0, i + 1).drop_last() =~= self.hosts@.subrange(
                    0,
                    i as int,
                ));
            }
            h.free_slots = h.free_slots + n.headroom();
            h.total_slots = h.total_slots + n.cell_budget;
            if n.is_burst() {
                h.burst_nodes = h.burst_nodes + 1;
            } else {
                h.donor_nodes = h.donor_nodes + 1;
            }
            i = i + 1;
        }
        assert(self.hosts@.subrange(0, i as int) =~= self.hosts@);
        h
    }

    /// The best host for another cell near a region; none where no host can take one, which the
    /// autoscaler reads as a call for more capacity.
    pub fn best_host_for(&self, _cell: &CellId, near: &RegionHint) -> (r: Option<NodeId>)
        ensures
            match r {
                Some(id) => exists|at: int|
                    is_best(self.hosts@, near@, |n: HostNode| takes_cell(n), at) && #[trigger] self.hosts@[at].node_id
                        == id,
                None => forall|j: int|
                    0 <= j < self.hosts@.len() ==> !takes_cell(#[trigger] self.hosts@[j]),
            },
    {
        let none: Vec<NodeId> = Vec::new();
        match self.best_index(near, &none) {
            Some(at) => {
                proof {
                    assert(ids(none@) =~= Seq::<Seq<char>>::empty());
                    lemma_nothing_seated(self.hosts@, near@, at as int);
                }
                Some(self.hosts[at].node_id.clone())
            },
            None => {
                proof {
                    assert(ids(none@) =~= Seq::<Seq<char>>::empty());
                    assert forall|j: int| 0 <= j < self.hosts@.len() implies !takes_cell(
                        #[trigger] self.hosts@[j],
                    ) by {
                        assert(!seats_another(self.hosts@[j], Seq::empty()));
                    }
                }
                None
            },
        }
    }

    /// The best host that can take a cell and still has a slot beyond the cells `seated`, which
    /// names a node once for each cell that was just promised to it.
    pub fn best_index(&self, near: &RegionHint, seated: &Vec<NodeId>) -> (r: Option<usize>)
        ensures
            match r {
                Some(at) => is_best(
                    self.hosts@,
                    near@,
                    |n: HostNode| seats_another(n, ids(seated@)),
                    at as int,
                ),
                None => forall|j: int|
                    0 <= j < self.hosts@.len() ==> !seats_another(
                        #[trigger] self.hosts@[j],
                        ids(seated@),
                    ),
            },
    {
        let mut best: Option<usize> = None;
        let mut best_key: u128 = 0;
        let mut i: usize = 0;
        let ghost eligible = |n: HostNode| seats_another(n, ids(seated@));
        while i < self.hosts.len()
            invariant
                i <= self.hosts@.len(),
                eligible == (|n: HostNode| seats_another(n, ids(seated@))),
                match best {
                    Some(at) => {
                        &&& at < i
                        &&& eligible(self.hosts@[at as int])
                        &&& best_key == placement_rank(self.hosts@[at as int], near@)
                        &&& forall|j: int|
                            0 <= j < i && eligible(#[trigger] self.hosts@[j]) ==> {
                                &&& best_key <= placement_rank(self.hosts@[j], near@)
                                &&& j < at ==> best_key < placement_rank(self.hosts@[j], near@)
                            }
                    },
                    None => forall|j: int|
                        0 <= j < i ==> !eligible(#[trigger] self.hosts@[j]),
                },
            decreases self.hosts@.len() - i,
        {
            let n = &self.hosts[i];
            let promised: usize = occurrences(seated, &n.node_id);
            if n.can_take_cell() && n.headroom() as usize > promised {
                let key: u128 = n.placement_key(near);
                match best {
                    Some(_) => {
                        if key < best_key {
                            best = Some(i);
                            best_key = key;
                        }
                    },
                    None => {
                        best = Some(i);
                        best_key = key;
                    },
                }
            }
            i = i + 1;
        }
        best
    }

    /// Adds the nodes that have come up, and says which they are.
    pub fn enrol(&mut self, nodes: Vec<HostNode>) -> (ids: Vec<NodeId>)
        ensures
            final(self).hosts@ == old(self).hosts@ + nodes@,
            final(self).cell_boot == old(self).cell_boot,
            ids@ == nodes@.map_values(|n: HostNode| n.node_id),
    {
        let mut nodes: Vec<HostNode> = nodes;
        let ghost all = nodes@;
        let mut ids: Vec<NodeId> = Vec::new();
        let mut i: usize = 0;
        while i < nodes.len()
            invariant
                nodes@ == all,
                i <= all.len(),
                ids@ == all.subrange(0, i as int).map_values(|n: HostNode| n.node_id),
            decreases all.len() - i,
        {
            ids.push(nodes[i].node_id.clone());
            proof {
                assert(all.subrange(0, i + 1) =~= all.subrange(0, i as int).push(all[i as int]));
                assert(ids@ =~= all.subrange(0, i + 1).map_values(|n: HostNode| n.node_id));
            }
            i = i + 1;
        }
        assert(all.subrange(0, i as int) =~= all);
        self.hosts.append(&mut nodes);
        ids
    }

    /// Retires a rented node: no cell lands on it any more, and once it is empty it leaves the
    /// fleet. A donor keeps its place, without new cells. What is returned is the instance to
    /// destroy, where the node was rented and its cells are gone.
    pub fn drain(&mut self, node_id: &NodeId) -> (gone: Option<Retired>)
        ensures
            final(self).hosts@ == drained(old(self).hosts@, node_id@),
            final(self).cell_boot == old(self).cell_boot,
            match first_host(old(self).hosts@, node_id@) {
                Some(i) => match old(self).hosts@[i].source {
                    CapacitySource::CloudBurst { provider, region, instance_id } => gone == (
                    if old(self).hosts@[i].cells == 0 {
                        Some(Retired { provider, instance_id })
                    } else {
                        None
                    }),
                    CapacitySource::Donated => gone is None,
                },
                None => gone is None,
            },
    {
        let ghost start = self.hosts@;
        let mut gone: Option<Retired> = None;
        let mut i: usize = 0;
        proof {
            lemma_first_host(start, node_id@);
        }
        while i < self.hosts.len() && !same_text(self.hosts[i].node_id.as_str(), node_id.as_str())
            invariant
                i <= start.len(),
                self.hosts@ == start,
                self.cell_boot == old(self).cell_boot,
                forall|j: int| 0 <= j < i ==> (#[trigger] start[j]).node_id@ != node_id@,
            decreases start.len() - i,
        {
            i = i + 1;
        }
        if i < self.hosts.len() {
            assert(first_host(start, node_id@) == Some(i as int));
            let cells: u32 = self.hosts[i].cells;
            gone = match &self.hosts[i].source {
                CapacitySource::CloudBurst { provider, region, instance_id } => if cells == 0 {
                    Some(Retired { provider: provider.clone(), instance_id: instance_id.clone() })
                } else {
                    None
                },
                CapacitySource::Donated => None,
            };
            self.hosts[i].cell_budget = cells;
            assert(self.hosts@ =~= capped(start, node_id@));
        }
        let ghost cut = self.hosts@;
        assert(cut == capped(start, node_id@));
        let mut kept: Vec<HostNode> = Vec::new();
        let ghost keep = |n: HostNode| keeps_after_drain(n, node_id@);
        let ghost mut seen: int = 0;
        proof {
            reveal(Seq::filter);
            assert(cut.subrange(0, 0) =~= Seq::<HostNode>::empty());
            assert(cut.subrange(0, cut.len() as int) =~= cut);
        }
        while self.hosts.len() > 0
            invariant
                0 <= seen <= cut.len(),
                self.hosts@ == cut.subrange(seen, cut.len() as int),
                self.cell_boot == old(self).cell_boot,
                keep == (|n: HostNode| keeps_after_drain(n, node_id@)),
                kept@ == cut.subrange(0, seen).filter(keep),
            decreases self.hosts@.len(),
        {
            let n: HostNode = self.hosts.remove(0);
            proof {
                assert(n == cut[seen]);
                assert(cut.subrange(0, seen + 1) =~= cut.subrange(0, seen).push(n));
                crate::sort::lemma_filter_push(cut.subrange(0, seen), n, keep);
                assert(self.hosts@ =~= cut.subrange(seen + 1, cut.len() as int));
                seen = seen + 1;
            }
            let stays: bool = !same_text(n.node_id.as_str(), node_id.as_str()) || !n.is_burst()
                || n.cells > 0;
            if stays {
                kept.push(n);
            }
        }
        assert(cut.subrange(0, seen) =~= cut);
        self.hosts = kept;
        gone
    }
}

/// What a provider asks for a node in a region.
#[derive(Debug, Clone, Copy, PartialEq, Eq, Structural)]
pub struct Quote {
    /// The provider's place in the list of providers.
    pub provider: usize,
    pub price_per_min: u64,
}

impl Ranked for Quote {
    open spec fn before(&self, other: &Self) -> bool {
        self.price_per_min < other.price_per_min
    }

    fn goes_before(&self, other: &Self) -> (r: bool) {
        self.price_per_min < other.price_per_min
    }

    proof fn before_asymmetric(a: &Self, b: &Self) {
    }

    proof fn before_negatively_transitive(a: &Self, b: &Self, c: &Self) {
    }
}

/// A surge in progress: the providers still to be asked, the cheapest first, and how many nodes are
/// wanted and have come up.
#[derive(Debug)]
pub struct Surge {
    pub quotes: Vec<Quote>,
    pub asked: usize,
    pub wanted: usize,
    pub landed: Vec<NodeId>,
}

impl Surge {
    /// Starts a surge for `wanted` nodes. Providers that ask the same keep their order.
    pub fn start(wanted: usize, quotes: Vec<Quote>) -> (s: Surge)
        ensures
            s.quotes@ == stably_sorted(quotes@),
            s.asked == 0,
            s.wanted == wanted,
            s.landed@ == Seq::<NodeId>::empty(),
    {
        Surge { quotes: sort_stably(quotes), asked: 0, wanted, landed: Vec::new() }
    }

    /// Which provider to ask next, and for how many nodes; none once enough have come up or every
    /// provider was asked.
    pub fn next_request(&self) -> (r: Option<(usize, usize)>)
        ensures
            r == (if self.landed@.len() < self.wanted && self.asked < self.quotes@.len() {
                Some(
                    (
                        self.quotes@[self.asked as int].provider,
                        (self.wanted - self.landed@.len()) as usize,
                    ),
                )
            } else {
                None
            }),
    {
        if self.landed.len() < self.wanted && self.asked < self.quotes.len() {
            Some((self.quotes[self.asked].provider, self.wanted - self.landed.len()))
        } else {
            None
        }
    }

    /// Takes in the nodes that the provider which was asked last has brought up.
    pub fn on_provisioned(&mut self, fleet: &mut Fleet, nodes: Vec<HostNode>)
        requires
            old(self).asked < old(self).quotes@.len(),
        ensures
            final(self).quotes == old(self).quotes,
            final(self).wanted == old(self).wanted,
            final(self).asked == old(self).asked + 1,
            final(self).landed@ == old(self).landed@ + nodes@.map_values(
                |n: HostNode| n.node_id,
            ),
            final(fleet).hosts@ == old(fleet).hosts@ + nodes@,
            final(fleet).cell_boot == old(fleet).cell_boot,
    {
        let mut fresh: Vec<NodeId> = fleet.enrol(nodes);
        self.landed.append(&mut fresh);
        assert(self.asked < self.quotes.len());
        self.asked = self.asked + 1;
    }
}

/// The views of a list of ids.
pub open spec fn ids(list: Seq<NodeId>) -> Seq<Seq<char>> {
    list.map_values(|id: NodeId| id@)
}

/// How often a text occurs in a list.
pub open spec fn count_of(list: Seq<Seq<char>>, id: Seq<char>) -> nat
    decreases list.len(),
{
    if list.len() == 0 {
        0
    } else {
        count_of(list.drop_last(), id) + (if list.last() == id {
            1nat
        } else {
            0nat
        })
    }
}

/// The host can take a cell beyond those that were already promised to it.
pub open spec fn seats_another(n: HostNode, seated: Seq<Seq<char>>) -> bool {
    takes_cell(n) && free_slots_of(n) > count_of(seated, n.node_id@)
}

pub fn occurrences(list: &Vec<NodeId>, id: &NodeId) -> (n: usize)
    ensures
        n == count_of(ids(list@), id@),
{
    let mut n: usize = 0;
    let mut i: usize = 0;
    assert(ids(list@).subrange(0, 0) =~= Seq::<Seq<char>>::empty());
    while i < list.len()
        invariant
            n <= i <= list@.len(),
            n == count_of(ids(list@).subrange(0, i as int), id@),
        decreases list@.len() - i,
    {
        proof {
            assert(ids(list@).subrange(0, i + 1).drop_last() =~= ids(list@).subrange(0, i as int));
        }
        if same_text(list[i].as_str(), id.as_str()) {
            n = n + 1;
        }
        i = i + 1;
    }
    assert(ids(list@).subrange(0, i as int) =~= ids(list@));
    n
}

/// With no cell promised to anyone, the best host is the best of those that can take a cell.
pub proof fn lemma_nothing_seated(hosts: Seq<HostNode>, near: Seq<char>, at: int)
    ensures
        is_best(hosts, near, |n: HostNode| takes_cell(n), at) <==> is_best(
            hosts,
            near,
            |n: HostNode| seats_another(n, Seq::empty()),
            at,
        ),
{
    let a = |n: HostNode| seats_another(n, Seq::empty());
    let b = |n: HostNode| takes_cell(n);
    assert(a =~= b);
}

/// The sums over some of the hosts are no larger than those over all.
pub proof fn lemma_filtered_sums(hosts: Seq<HostNode>, p: spec_fn(HostNode) -> bool)
    ensures
        budget_sum(hosts.filter(p)) <= budget_sum(hosts),
        free_sum(hosts.filter(p)) <= budget_sum(hosts.filter(p)),
    decreases hosts.len(),
{
    reveal(Seq::filter);
    if hosts.len() > 0 {
        lemma_filtered_sums(hosts.drop_last(), p);
        let rest = hosts.drop_last().filter(p);
        assert(rest.push(hosts.last()).drop_last() =~= rest);
    }
}

/// A host has as many free slots as its budget leaves, and takes another cell while it has one and its load is
/// below 85 percent.
pub proof fn law_room_on_a_host(n: HostNode)
    ensures
        n.cells <= n.cell_budget ==> n.cells + free_slots_of(n) == n.cell_budget,
        n.cells >= n.cell_budget ==> free_slots_of(n) == 0,
        takes_cell(n) <==> n.cells < n.cell_budget && n.load_permille < 850,
{
}

/// Which of two hosts is preferred: one in the region before one elsewhere, then a donated one before a rented
/// one, then the cheaper one, then the one with fewer cells.
pub proof fn law_placement_preferences(a: HostNode, b: HostNode, near: Seq<char>)
    ensures
        ({
            let here = a.region@ == near;
            let there = b.region@ == near;
            let (ra, rb) = (a.source is CloudBurst, b.source is CloudBurst);
            let first = placement_rank(a, near) < placement_rank(b, near);
            &&& here && !there ==> first
            &&& here == there && !ra && rb ==> first
            &&& here == there && ra == rb && a.price_per_min < b.price_per_min ==> first
            &&& here == there && ra == rb && a.price_per_min == b.price_per_min ==> (first <==> a.cells
                < b.cells)
            &&& here == there && ra == rb && a.price_per_min == b.price_per_min && a.cells == b.cells
                ==> placement_rank(a, near) == placement_rank(b, near)
        }),
{
}

/// The best of some hosts is eligible, and no eligible one is preferred to it: not one that is in the region where
/// it is not, nor one in the same case that is donated where it is rented, or cheaper, or emptier.
pub proof fn law_best_host(
    hosts: Seq<HostNode>,
    near: Seq<char>,
    eligible: spec_fn(HostNode) -> bool,
    at: int,
    j: int,
)
    requires
        is_best(hosts, near, eligible, at),
        0 <= j < hosts.len(),
        eligible(hosts[j]),
    ensures
        0 <= at < hosts.len(),
        eligible(hosts[at]),
        hosts[j].region@ == near ==> hosts[at].region@ == near,
        ({
            let (b, h) = (hosts[at], hosts[j]);
            (b.region@ == near) == (h.region@ == near) ==> {
                &&& !(h.source is CloudBurst) ==> !(b.source is CloudBurst)
                &&& (b.source is CloudBurst) == (h.source is CloudBurst) ==> b.price_per_min
                    <= h.price_per_min
                &&& (b.source is CloudBurst) == (h.source is CloudBurst) && b.price_per_min
                    == h.price_per_min ==> b.cells <= h.cells
            }
        }),
{
    law_placement_preferences(hosts[j], hosts[at], near);
    assert(placement_rank(hosts[at], near) <= placement_rank(hosts[j], near));
}

/// A fleet is tight while less than the given thousandths of its slots are free, and roomy while more are: just at
/// the mark it is neither. What matters is the share, not the size of the fleet; one without slots is as tight as
/// can be.
pub proof fn law_slack_is_a_share(permille: int, k: int, free: int, total: int)
    requires
        k >= 1,
        0 <= permille,
        0 <= free,
        0 <= total,
    ensures
        !tighter_than(permille * k, 1000 * k, permille),
        tighter_than(permille * k - 1, 1000 * k, permille),
        !roomier_than(permille * k, 1000 * k, permille),
        roomier_than(permille * k + 1, 1000 * k, permille),
        tighter_than(free * k, total * k, permille) == tighter_than(free, total, permille),
        roomier_than(free * k, total * k, permille) == roomier_than(free, total, permille),
        !(tighter_than(free, total, permille) && roomier_than(free, total, permille)),
        tighter_than(free + 1, total, permille) && total > 0 ==> tighter_than(free, total, permille),
        roomier_than(free, total, permille) ==> roomier_than(free + 1, total, permille),
        permille > 0 ==> tighter_than(0, 0, permille),
        !roomier_than(free, 0, permille),
{
    assert(permille * k * 1000 == 1000 * k * permille) by (nonlinear_arith);
    assert((permille * k - 1) * 1000 == permille * k * 1000 - 1000) by (nonlinear_arith);
    assert((permille * k + 1) * 1000 == permille * k * 1000 + 1000) by (nonlinear_arith);
    assert(total * k == 0 <==> total == 0) by (nonlinear_arith)
        requires
            k >= 1,
            total >= 0,
    ;
    let (a, b) = (free * 1000, total * permille);
    assert(free * k * 1000 == a * k && total * k * permille == b * k) by (nonlinear_arith)
        requires
            a == free * 1000,
            b == total * permille,
    ;
    assert(a * k < b * k <==> a < b) by (nonlinear_arith)
        requires
            k >= 1,
    ;
    assert(a * k > b * k <==> a > b) by (nonlinear_arith)
        requires
            k >= 1,
    ;
}

/// The sums of a fleet count each host once: its budget, its free slots, and whether it is rented.
pub proof fn law_fleet_sums(hosts: Seq<HostNode>, n: HostNode)
    ensures
        budget_sum(hosts.push(n)) == budget_sum(hosts) + n.cell_budget,
        free_sum(hosts.push(n)) == free_sum(hosts) + (if n.cells < n.cell_budget {
            n.cell_budget - n.cells
        } else {
            0
        }),
        rented_count(hosts.push(n)) == rented_count(hosts) + (if n.source is CloudBurst {
            1int
        } else {
            0int
        }),
        budget_sum(Seq::empty()) == 0,
        free_sum(Seq::empty()) == 0,
        rented_count(Seq::empty()) == 0,
        free_sum(hosts) <= budget_sum(hosts),
        rented_count(hosts) <= hosts.len(),
    decreases hosts.len(),
{
    assert(hosts.push(n).drop_last() =~= hosts);
    if hosts.len() > 0 {
        law_fleet_sums(hosts.drop_last(), n);
    }
}

/// A host that is drained is given no further cell. If it is rented and empty it is gone; if not, it stays with the
/// cells that it has. Every other host is as it was.
pub proof fn law_draining(hosts: Seq<HostNode>, node_id: Seq<char>, i: int)
    requires
        0 <= i < hosts.len(),
        forall|a: int, b: int|
            0 <= a < b < hosts.len() ==> (#[trigger] hosts[a]).node_id@ != (
            #[trigger] hosts[b]).node_id@,
    ensures
        hosts[i].node_id@ != node_id ==> drained(hosts, node_id).contains(hosts[i]),
        forall|n: HostNode| #[trigger]
            drained(hosts, node_id).contains(n) && n.node_id@ == node_id ==> free_slots_of(n) == 0
                && !takes_cell(n) && (n.source is CloudBurst ==> n.cells > 0),
        hosts[i].node_id@ == node_id && (hosts[i].cells > 0 || hosts[i].source is Donated)
            ==> drained(hosts, node_id).contains(
            HostNode { cell_budget: hosts[i].cells, ..hosts[i] },
        ),
{
    lemma_first_host(hosts, node_id);
    let c = capped(hosts, node_id);
    let p = |n: HostNode| keeps_after_drain(n, node_id);
    assert forall|n: HostNode| #[trigger] c.filter(p).contains(n) implies p(n) && c.contains(n) by {
        crate::sort::lemma_filter_holds(c, p, n);
    }
    assert forall|n: HostNode| #[trigger]
        drained(hosts, node_id).contains(n) && n.node_id@ == node_id implies free_slots_of(n) == 0
        && !takes_cell(n) && (n.source is CloudBurst ==> n.cells > 0) by {
        let j = choose|j: int| 0 <= j < c.len() && c[j] == n;
        assert(hosts[j].node_id@ == node_id);
        let f = first_host(hosts, node_id)->0;
        assert(hosts[f].node_id@ == node_id);
        assert(j == f);
    }
    if hosts[i].node_id@ != node_id {
        assert(c[i] == hosts[i]);
        assert(c.contains(c[i]));
        crate::sort::lemma_filter_holds(c, p, hosts[i]);
    } else {
        let f = first_host(hosts, node_id)->0;
        assert(hosts[f].node_id@ == node_id);
        assert(f == i);
        let kept = HostNode { cell_budget: hosts[i].cells, ..hosts[i] };
        assert(c[i] == kept);
        assert(c.contains(c[i]));
        crate::sort::lemma_filter_holds(c, p, kept);
    }
}

/// How often an id stands in a list: appending it makes it one more, appending another leaves it.
pub proof fn law_occurrences(list: Seq<Seq<char>>, id: Seq<char>, other: Seq<char>)
    ensures
        count_of(list.push(id), id) == count_of(list, id) + 1,
        other != id ==> count_of(list.push(other), id) == count_of(list, id),
        count_of(Seq::empty(), id) == 0,
        count_of(list, id) > 0 <==> list.contains(id),
    decreases list.len(),
{
    assert(list.push(id).drop_last() =~= list);
    assert(list.push(other).drop_last() =~= list);
    if list.len() > 0 {
        let rest = list.drop_last();
        law_occurrences(rest, id, other);
        if list.last() == id {
            assert(list[list.len() - 1] == id);
        }
        if rest.contains(id) {
            let i = choose|i: int| 0 <= i < rest.len() && rest[i] == id;
            assert(list[i] == id);
        }
        if list.contains(id) && list.last() != id {
            let i = choose|i: int| 0 <= i < list.len() && list[i] == id;
            assert(rest[i] == id);
        }
    }
}

/// A host is seated again only while it has more free slots than it has been promised cells.
pub proof fn law_seats_are_free_slots(n: HostNode, seated: Seq<Seq<char>>)
    ensures
        seats_another(n, seated) <==> n.load_permille < 850 && n.cells + count_of(seated, n.node_id@)
            < n.cell_budget,
{
}

/// A cheaper provider is asked before a dearer one.
pub proof fn law_cheapest_is_asked_first(quotes: Seq<Quote>, i: int, j: int)
    requires
        0 <= i < j < quotes.len(),
    ensures
        stably_sorted(quotes).len() == quotes.len(),
        stably_sorted(quotes)[i].price_per_min <= stably_sorted(quotes)[j].price_per_min,
{
    crate::sort::lemma_stably_sorted(quotes);
    let s = stably_sorted(quotes);
    assert(!s[j].before(&s[i]));
}

/// Where some host is eligible there is a best one.
pub proof fn law_some_host_is_best(hosts: Seq<HostNode>, near: Seq<char>, eligible: spec_fn(HostNode) -> bool, j: int)
    requires
        0 <= j < hosts.len(),
        eligible(hosts[j]),
    ensures
        exists|at: int| is_best(hosts, near, eligible, at),
    decreases hosts.len(),
{
    let rest = hosts.drop_last();
    let last = hosts.len() - 1;
    assert forall|i: int| 0 <= i < rest.len() implies #[trigger] hosts[i] == rest[i] by {}
    if exists|i: int| 0 <= i < rest.len() && eligible(#[trigger] rest[i]) {
        let i = choose|i: int| 0 <= i < rest.len() && eligible(#[trigger] rest[i]);
        law_some_host_is_best(rest, near, eligible, i);
        let at = choose|at: int| is_best(rest, near, eligible, at);
        let here = if eligible(hosts[last]) && placement_rank(hosts[last], near) < placement_rank(
            hosts[at],
            near,
        ) {
            last
        } else {
            at
        };
        assert forall|k: int| 0 <= k < hosts.len() && eligible(#[trigger] hosts[k]) implies {
            &&& placement_rank(hosts[here], near) <= placement_rank(hosts[k], near)
            &&& k < here ==> placement_rank(hosts[here], near) < placement_rank(hosts[k], near)
        } by {
            if k < last {
                assert(eligible(rest[k]));
            }
        }
        assert(is_best(hosts, near, eligible, here));
    } else {
        assert(j == last) by {
            if j < last {
                assert(eligible(rest[j]));
            }
        }
        assert forall|k: int| 0 <= k < hosts.len() && eligible(#[trigger] hosts[k]) implies k == last by {
            if k < last {
                assert(eligible(rest[k]));
            }
        }
        assert(is_best(hosts, near, eligible, last));
    }
}

/// The host of an id is the first that has it.
pub proof fn law_first_host_of_an_id(hosts: Seq<HostNode>, node_id: Seq<char>)
    ensures
        match first_host(hosts, node_id) {
            Some(i) => 0 <= i < hosts.len() && hosts[i].node_id@ == node_id && (forall|j: int|
                0 <= j < i ==> (#[trigger] hosts[j]).node_id@ != node_id),
            None => forall|j: int| 0 <= j < hosts.len() ==> (#[trigger] hosts[j]).node_id@ != node_id,
        },
    decreases hosts.len(),
{
    if hosts.len() > 0 {
        let rest = hosts.drop_last();
        law_first_host_of_an_id(rest, node_id);
        assert forall|i: int| 0 <= i < rest.len() implies #[trigger] hosts[i] == rest[i] by {}
    }
}

} // verus!
