//! The orchestrator: the control loop that any node can run, without a leader.
//!
//! A controller owns a cell when it wins the rendezvous hash for it among the live controllers. Every
//! node computes the same winner, so each cell has exactly one owner, and owners move only when
//! controllers come and go.
use vstd::prelude::*;
use vstd::string::*;

use crate::autoscale::{
    are_tight_regions, dwell_pass, outcome, ActionView, Autoscaler, Observed, Ownership,
    ScaleAction,
};
use crate::fleet::{budget_sum, ids, Fleet, NodeId, RegionHint};
use crate::galaxy::{morton_of, CellId, CellLoad, Galaxy};
use crate::hash::{fnv64, fnv64_from, FNV64_BASIS};
use crate::order::SortedMap;
use crate::text::same_text;

verus! {

/// What a controller knows when it runs a pass.
pub struct WorldView {
    pub epoch: u64,
    pub galaxy: Galaxy,
    pub loads: SortedMap<CellId, CellLoad>,
    pub fleet: Fleet,
    /// The live controllers that are not redlining.
    pub controllers: Vec<NodeId>,
    pub me: NodeId,
}

/// The number without its low `n` bytes.
pub open spec fn without_low_bytes(key: nat, n: nat) -> nat
    decreases n,
{
    if n == 0 {
        key
    } else {
        without_low_bytes(key, (n - 1) as nat) / 256
    }
}

/// The sixteen bytes of a key, the lowest first.
pub open spec fn key_bytes(key: nat) -> Seq<u8> {
    Seq::new(16, |i: int| (without_low_bytes(key, i as nat) % 256) as u8)
}

/// The weight of a controller for a key: a hash of its id and the key.
pub open spec fn weight_of(controller: Seq<char>, key: nat) -> u64 {
    fnv64_from(
        fnv64_from(FNV64_BASIS, vstd::utf8::encode_utf8(controller)),
        key_bytes(key),
    )
}

/// The controller at `at` has the largest weight, the last one on a tie.
pub open spec fn wins(controllers: Seq<Seq<char>>, key: nat, at: int) -> bool {
    &&& 0 <= at < controllers.len()
    &&& forall|j: int|
        0 <= j < controllers.len() ==> {
            &&& weight_of(#[trigger] controllers[j], key) <= weight_of(controllers[at], key)
            &&& at < j ==> weight_of(controllers[j], key) < weight_of(controllers[at], key)
        }
}

/// The owner of a cell among some controllers.
pub open spec fn owner_among(controllers: Seq<Seq<char>>, cell: CellId) -> Option<Seq<char>> {
    if exists|at: int| wins(controllers, morton_of(cell), at) {
        Some(controllers[choose|at: int| wins(controllers, morton_of(cell), at)])
    } else {
        None
    }
}

fn rendezvous_weight(controller: &str, key: u128) -> (w: u64)
    ensures
        w == weight_of(controller@, key as nat),
{
    let h: u64 = fnv64(FNV64_BASIS, controller.as_bytes());
    let mut bytes: Vec<u8> = Vec::with_capacity(16);
    let mut rest: u128 = key;
    let mut i: usize = 0;
    while i < 16
        invariant
            i <= 16,
            bytes@.len() == i,
            rest == without_low_bytes(key as nat, i as nat),
            forall|j: int|
                0 <= j < i ==> #[trigger] bytes@[j] == (without_low_bytes(
                    key as nat,
                    j as nat,
                ) % 256) as u8,
        decreases 16 - i,
    {
        bytes.push((rest % 256) as u8);
        rest = rest / 256;
        i = i + 1;
    }
    assert(bytes@ =~= key_bytes(key as nat));
    fnv64(h, bytes.as_slice())
}

proof fn lemma_winner_unique(controllers: Seq<Seq<char>>, key: nat, a: int, b: int)
    requires
        wins(controllers, key, a),
        wins(controllers, key, b),
    ensures
        a == b,
{
    assert(weight_of(controllers[a], key) <= weight_of(controllers[b], key));
    assert(weight_of(controllers[b], key) <= weight_of(controllers[a], key));
}

/// The cells that `me` owns among the live controllers.
pub struct Claims<'a> {
    pub me: &'a NodeId,
    pub controllers: &'a Vec<NodeId>,
}

pub open spec fn claimed_by(me: Seq<char>, controllers: Seq<Seq<char>>) -> Set<CellId> {
    Set::new(|c: CellId| owner_among(controllers, c) == Some(me))
}

impl<'a> Ownership for Claims<'a> {
    open spec fn claimed(&self) -> Set<CellId> {
        claimed_by(self.me@, ids(self.controllers@))
    }

    open spec fn ready(&self) -> bool {
        true
    }

    fn owns(&self, cell: &CellId) -> (r: bool) {
        Orchestrator::is_owner(self.me, cell, self.controllers)
    }
}

/// The outcome of an action, for the mesh to converge on and for maps to show.
#[derive(Debug, PartialEq)]
pub enum Committed {
    Reshape { op: &'static str, cell: CellId, hosts: Vec<NodeId> },
    Migrate { cell: CellId, from: NodeId, to: NodeId },
    Burst { count: usize, region: RegionHint },
    Retire { node: NodeId },
}

/// An outcome with texts in place of strings.
pub enum CommittedView {
    Reshape { op: Seq<char>, cell: CellId, hosts: Seq<Seq<char>> },
    Migrate { cell: CellId, from: Seq<char>, to: Seq<char> },
    Burst { count: usize, region: Seq<char> },
    Retire { node: Seq<char> },
}

impl View for Committed {
    type V = CommittedView;

    open spec fn view(&self) -> CommittedView {
        match *self {
            Committed::Reshape { op, cell, hosts } => CommittedView::Reshape {
                op: op@,
                cell,
                hosts: ids(hosts@),
            },
            Committed::Migrate { cell, from, to } => CommittedView::Migrate {
                cell,
                from: from@,
                to: to@,
            },
            Committed::Burst { count, region } => CommittedView::Burst {
                count,
                region: region@,
            },
            Committed::Retire { node } => CommittedView::Retire { node: node@ },
        }
    }
}

/// The outcome that an action is committed as.
pub open spec fn outcome_of(a: ActionView) -> CommittedView {
    match a {
        ActionView::Split { cell, place_on } => CommittedView::Reshape {
            op: "split"@,
            cell,
            hosts: place_on,
        },
        ActionView::Merge { parent, place_on } => CommittedView::Reshape {
            op: "merge"@,
            cell: parent,
            hosts: seq![place_on],
        },
        ActionView::Place { cell, node } => CommittedView::Reshape {
            op: "place"@,
            cell,
            hosts: seq![node],
        },
        ActionView::Migrate { cell, from, to } => CommittedView::Migrate { cell, from, to },
        ActionView::Burst { count, region } => CommittedView::Burst { count, region },
        ActionView::Retire { node } => CommittedView::Retire { node },
    }
}

/// The orchestrator of one node.
pub struct Orchestrator {
    pub autoscaler: Autoscaler,
    /// The content hash of the cell image that is deployed.
    pub cell_image: String,
    /// The most that is paid for a cell-minute.
    pub max_bid_per_min: u128,
}

impl Orchestrator {
    /// Does `me` own the cell among these controllers?
    pub fn owns(&self, me: &NodeId, cell: &CellId, controllers: &Vec<NodeId>) -> (r: bool)
        ensures
            r == (owner_among(ids(controllers@), *cell) == Some(me@)),
    {
        Orchestrator::is_owner(me, cell, controllers)
    }

    fn is_owner(me: &NodeId, cell: &CellId, controllers: &Vec<NodeId>) -> (r: bool)
        ensures
            r == (owner_among(ids(controllers@), *cell) == Some(me@)),
    {
        match Orchestrator::owner(cell, controllers) {
            Some(id) => same_text(id.as_str(), me.as_str()),
            None => false,
        }
    }

    /// The controller that owns a cell: the one of the largest weight.
    pub fn owner(cell: &CellId, controllers: &Vec<NodeId>) -> (r: Option<NodeId>)
        ensures
            r is Some <==> controllers@.len() > 0,
            match r {
                Some(id) => owner_among(ids(controllers@), *cell) == Some(id@),
                None => owner_among(ids(controllers@), *cell) is None,
            },
    {
        let ghost all = ids(controllers@);
        let ghost key = morton_of(*cell);
        if controllers.len() == 0 {
            assert(forall|at: int| !wins(all, key, at));
            return None;
        }
        let k: u128 = cell.morton();
        let mut best: usize = 0;
        let mut best_weight: u64 = rendezvous_weight(controllers[0].as_str(), k);
        let mut i: usize = 1;
        while i < controllers.len()
            invariant
                best < i <= controllers@.len(),
                all == ids(controllers@),
                key == k,
                best_weight == weight_of(all[best as int], key),
                forall|j: int|
                    0 <= j < i ==> {
                        &&& weight_of(#[trigger] all[j], key) <= best_weight
                        &&& best < j ==> weight_of(all[j], key) < best_weight
                    },
            decreases controllers@.len() - i,
        {
            let w: u64 = rendezvous_weight(controllers[i].as_str(), k);
            assert(w == weight_of(all[i as int], key));
            if w >= best_weight {
                best = i;
                best_weight = w;
            }
            i = i + 1;
        }
        proof {
            assert(wins(all, key, best as int));
            let chosen = choose|at: int| wins(all, key, at);
            lemma_winner_unique(all, key, best as int, chosen);
        }
        Some(controllers[best].clone())
    }

    /// One control pass: decides for the cells that this node owns, and returns what was committed.
    pub fn pass(&mut self, view: &WorldView) -> (committed: Vec<Committed>)
        requires
            old(self).autoscaler.wf(),
            view.galaxy.wf(),
            view.loads.wf(),
            forall|c: CellId| view.galaxy@.contains(c) ==> #[trigger] c.divisible(),
            budget_sum(view.fleet.hosts@) <= u32::MAX,
            view.fleet.hosts@.len() <= u32::MAX,
        ensures
            final(self).autoscaler.wf(),
            final(self).cell_image == old(self).cell_image,
            final(self).max_bid_per_min == old(self).max_bid_per_min,
            ({
                let o = observed(*view, *old(self));
                let leaves = view.galaxy.leaf_order();
                final(self).autoscaler.dwell@ == dwell_pass(
                    o,
                    old(self).autoscaler.dwell@,
                    leaves,
                    leaves.len(),
                )
            }),
            exists|regions: Seq<Seq<char>>| #[trigger]
                are_tight_regions(
                    regions,
                    view.fleet.hosts@,
                    old(self).autoscaler.policy.burst_below_permille,
                ) && ({
                    let o = observed(*view, *old(self));
                    let leaves = view.galaxy.leaf_order();
                    let (actions, cooldown) = outcome(
                        o,
                        old(self).autoscaler.dwell@,
                        leaves,
                        regions,
                        old(self).autoscaler.burst_cooldown@,
                        view.epoch,
                        old(self).autoscaler.policy,
                    );
                    &&& committed_views(committed@) == actions.map_values(
                        |a: ActionView| outcome_of(a),
                    )
                    &&& final(self).autoscaler.burst_cooldown@ == cooldown
                }),
    {
        let claims = Claims { me: &view.me, controllers: &view.controllers };
        let mut actions = self.autoscaler.decide(
            view.epoch,
            &view.galaxy,
            &view.loads,
            &view.fleet,
            &claims,
        );
        let ghost all = actions@;
        let ghost wanted = crate::autoscale::action_views(all).map_values(
            |a: ActionView| outcome_of(a),
        );
        let mut committed: Vec<Committed> = Vec::new();
        let ghost mut taken: int = 0;
        assert(all.subrange(0, all.len() as int) =~= all);
        while actions.len() > 0
            invariant
                0 <= taken <= all.len(),
                actions@ == all.subrange(taken, all.len() as int),
                wanted == crate::autoscale::action_views(all).map_values(
                    |a: ActionView| outcome_of(a),
                ),
                committed_views(committed@) =~= wanted.subrange(0, taken),
            decreases actions@.len(),
        {
            let ghost before = committed_views(committed@);
            let action: ScaleAction = actions.remove(0);
            assert(action == all[taken]);
            let done: Committed = Orchestrator::commit(action);
            committed.push(done);
            proof {
                assert(committed_views(committed@) =~= before.push(done@));
                assert(wanted[taken] == outcome_of(all[taken]@));
                assert(actions@ =~= all.subrange(taken + 1, all.len() as int));
                taken = taken + 1;
            }
        }
        assert(wanted.subrange(0, taken) =~= wanted);
        committed
    }

    /// What an action is committed as.
    pub fn commit(action: ScaleAction) -> (c: Committed)
        ensures
            c@ == outcome_of(action@),
    {
        match action {
            ScaleAction::Split { cell, place_on } => {
                let mut hosts: Vec<NodeId> = Vec::new();
                hosts.push(place_on[0].clone());
                hosts.push(place_on[1].clone());
                hosts.push(place_on[2].clone());
                hosts.push(place_on[3].clone());
                assert(ids(hosts@) =~= ids(place_on@));
                Committed::Reshape { op: "split", cell, hosts }
            },
            ScaleAction::Merge { parent, place_on } => {
                let mut hosts: Vec<NodeId> = Vec::new();
                hosts.push(place_on);
                assert(ids(hosts@) =~= seq![place_on@]);
                Committed::Reshape { op: "merge", cell: parent, hosts }
            },
            ScaleAction::Place { cell, node } => {
                let mut hosts: Vec<NodeId> = Vec::new();
                hosts.push(node);
                assert(ids(hosts@) =~= seq![node@]);
                Committed::Reshape { op: "place", cell, hosts }
            },
            ScaleAction::Migrate { cell, from, to } => Committed::Migrate { cell, from, to },
            ScaleAction::Burst { count, region } => Committed::Burst { count, region },
            ScaleAction::Retire { node } => Committed::Retire { node },
        }
    }
}

pub open spec fn committed_views(s: Seq<Committed>) -> Seq<CommittedView> {
    s.map_values(|c: Committed| c@)
}

/// What a pass of an orchestrator observes.
pub open spec fn observed(view: WorldView, orchestrator: Orchestrator) -> Observed {
    Observed {
        owned: claimed_by(view.me@, ids(view.controllers@)),
        loads: view.loads@,
        hosts: view.fleet.hosts@,
        policy: orchestrator.autoscaler.policy.scale,
    }
}

/// A cell has exactly one owner as soon as there is a controller: no two ids both own it.
pub proof fn law_one_owner(controllers: Seq<Seq<char>>, cell: CellId, a: Seq<char>, b: Seq<char>)
    requires
        claimed_by(a, controllers).contains(cell),
        claimed_by(b, controllers).contains(cell),
    ensures
        a == b,
{
}

/// The controller at the winning place owns the cell, and it is one of the controllers.
pub proof fn law_owner_is_a_controller(controllers: Seq<Seq<char>>, cell: CellId)
    requires
        controllers.len() > 0,
    ensures
        owner_among(controllers, cell) is Some,
        controllers.contains(owner_among(controllers, cell)->0),
{
    lemma_some_winner(controllers, morton_of(cell));
}

proof fn lemma_some_winner(controllers: Seq<Seq<char>>, key: nat)
    requires
        controllers.len() > 0,
    ensures
        exists|at: int| wins(controllers, key, at),
    decreases controllers.len(),
{
    let last = controllers.len() - 1;
    if last == 0 {
        assert(wins(controllers, key, 0));
    } else {
        let rest = controllers.drop_last();
        lemma_some_winner(rest, key);
        let at = choose|at: int| wins(rest, key, at);
        assert forall|j: int| 0 <= j < rest.len() implies #[trigger] controllers[j] == rest[j] by {
        }
        if weight_of(controllers[last], key) >= weight_of(controllers[at], key) {
            assert forall|j: int| 0 <= j < controllers.len() implies {
                &&& weight_of(#[trigger] controllers[j], key) <= weight_of(controllers[last], key)
                &&& last < j ==> weight_of(controllers[j], key) < weight_of(controllers[last], key)
            } by {
                if j < last {
                    assert(weight_of(rest[j], key) <= weight_of(rest[at], key));
                }
            }
            assert(wins(controllers, key, last));
        } else {
            assert forall|j: int| 0 <= j < controllers.len() implies {
                &&& weight_of(#[trigger] controllers[j], key) <= weight_of(controllers[at], key)
                &&& at < j ==> weight_of(controllers[j], key) < weight_of(controllers[at], key)
            } by {
                if j < last {
                    assert(weight_of(rest[j], key) <= weight_of(rest[at], key));
                }
            }
            assert(wins(controllers, key, at));
        }
    }
}

/// When a controller that does not own a cell leaves, the cell keeps its owner.
pub proof fn law_leaving_keeps_owner(controllers: Seq<Seq<char>>, cell: CellId, leaver: int)
    requires
        0 <= leaver < controllers.len(),
        owner_among(controllers, cell) != Some(controllers[leaver]),
    ensures
        owner_among(controllers.remove(leaver), cell) == owner_among(controllers, cell),
{
    let key = morton_of(cell);
    lemma_some_winner(controllers, key);
    let at = choose|at: int| wins(controllers, key, at);
    let rest = controllers.remove(leaver);
    let at2 = if at < leaver {
        at
    } else {
        at - 1
    };
    assert(at != leaver);
    assert(rest[at2] == controllers[at]);
    assert forall|j: int| 0 <= j < rest.len() implies {
        &&& weight_of(#[trigger] rest[j], key) <= weight_of(rest[at2], key)
        &&& at2 < j ==> weight_of(rest[j], key) < weight_of(rest[at2], key)
    } by {
        let i = if j < leaver {
            j
        } else {
            j + 1
        };
        assert(rest[j] == controllers[i]);
    }
    assert(wins(rest, key, at2));
    let chosen = choose|b: int| wins(rest, key, b);
    lemma_winner_unique(rest, key, at2, chosen);
}

/// A controller that joins takes over what it wins and disturbs nothing else: a cell keeps its owner or goes to the
/// newcomer.
pub proof fn law_joining_moves_only_to_the_newcomer(controllers: Seq<Seq<char>>, cell: CellId, newcomer: Seq<char>)
    requires
        controllers.len() > 0,
    ensures
        owner_among(controllers.push(newcomer), cell) == owner_among(controllers, cell) || owner_among(
            controllers.push(newcomer),
            cell,
        ) == Some(newcomer),
{
    let all = controllers.push(newcomer);
    let last = controllers.len() as int;
    if owner_among(all, cell) != Some(all[last]) {
        law_leaving_keeps_owner(all, cell, last);
        assert(all.remove(last) =~= controllers);
    }
}

/// The owner of a cell is a controller of the greatest weight for it: none that is listed has a greater one. It does
/// not matter in which order they are listed, where no two weights are the same.
pub proof fn law_greatest_weight_owns(controllers: Seq<Seq<char>>, cell: CellId, j: int)
    requires
        0 <= j < controllers.len(),
    ensures
        owner_among(controllers, cell) matches Some(o) && weight_of(controllers[j], morton_of(cell))
            <= weight_of(o, morton_of(cell)),
        (forall|k: int|
            0 <= k < controllers.len() && k != j ==> weight_of(
                #[trigger] controllers[k],
                morton_of(cell),
            ) < weight_of(controllers[j], morton_of(cell))) ==> owner_among(controllers, cell) == Some(
            controllers[j],
        ),
        owner_among(Seq::empty(), cell) is None,
{
    let key = morton_of(cell);
    lemma_some_winner(controllers, key);
    let at = choose|at: int| wins(controllers, key, at);
    assert(weight_of(controllers[j], key) <= weight_of(controllers[at], key));
    if forall|k: int|
        0 <= k < controllers.len() && k != j ==> weight_of(#[trigger] controllers[k], key)
            < weight_of(controllers[j], key) {
        if at != j {
            assert(weight_of(controllers[at], key) < weight_of(controllers[j], key));
        }
    }
}

/// The weight of a controller for a cell reads all sixteen bytes of the cell's key, the lowest first: the bytes give
/// the key back.
pub proof fn law_key_bytes_are_faithful(key: nat)
    requires
        key < 0x1_0000_0000_0000_0000_0000_0000_0000_0000,
    ensures
        key_bytes(key).len() == 16,
        key_bytes(key)[0] == key % 256,
        forall|i: int|
            0 <= i < 15 ==> without_low_bytes(key, i as nat) == #[trigger] key_bytes(key)[i] + 256
                * without_low_bytes(key, (i + 1) as nat),
        without_low_bytes(key, 0) == key,
        without_low_bytes(key, 16) == 0,
{
    assert forall|i: int| 0 <= i < 15 implies without_low_bytes(key, i as nat) == #[trigger] key_bytes(
        key,
    )[i] + 256 * without_low_bytes(key, (i + 1) as nat) by {
        let w = without_low_bytes(key, i as nat);
        assert(without_low_bytes(key, (i + 1) as nat) == w / 256);
    }
    lemma_low_bytes_gone(key, 16);
}

proof fn lemma_low_bytes_gone(key: nat, n: nat)
    requires
        n <= 16,
        key < 0x1_0000_0000_0000_0000_0000_0000_0000_0000,
    ensures
        without_low_bytes(key, n) * vstd::arithmetic::power2::pow2(8 * n) <= key,
        n == 16 ==> without_low_bytes(key, n) == 0,
    decreases n,
{
    vstd::arithmetic::power2::lemma2_to64();
    if n > 0 {
        lemma_low_bytes_gone(key, (n - 1) as nat);
        let w = without_low_bytes(key, (n - 1) as nat) as int;
        let p = vstd::arithmetic::power2::pow2((8 * (n - 1)) as nat) as int;
        vstd::arithmetic::power2::lemma_pow2_adds((8 * (n - 1)) as nat, 8);
        vstd::arithmetic::power2::lemma_pow2_pos((8 * (n - 1)) as nat);
        assert(8 * (n - 1) + 8 == 8 * n);
        assert((w / 256) * (p * 256) <= w * p) by (nonlinear_arith)
            requires
                w >= 0,
                p > 0,
        ;
        assert(vstd::arithmetic::power2::pow2(8) == 256);
        assert(vstd::arithmetic::power2::pow2(8 * n) == p * 256);
        assert(without_low_bytes(key, n) == w / 256);
    } else {
        assert(vstd::arithmetic::power2::pow2(8 * n) == 1);
    }
    if n == 16 {
        vstd::arithmetic::power2::lemma_pow2_adds(64, 64);
        let w = without_low_bytes(key, 16) as int;
        let p = vstd::arithmetic::power2::pow2(128) as int;
        assert(p == 0x1_0000_0000_0000_0000_0000_0000_0000_0000);
        assert(w == 0) by (nonlinear_arith)
            requires
                w >= 0,
                w * p <= key,
                key < p,
                p > 0,
        ;
    }
}

/// What is recorded of an action names the cell and every node that the action names.
pub proof fn law_actions_are_recorded_in_full(a: ActionView)
    ensures
        match a {
            ActionView::Split { cell, place_on } => outcome_of(a) matches CommittedView::Reshape {
                op,
                cell: c,
                hosts,
            } && op == "split"@ && c == cell && hosts == place_on,
            ActionView::Merge { parent, place_on } => outcome_of(a) matches CommittedView::Reshape {
                op,
                cell: c,
                hosts,
            } && op == "merge"@ && c == parent && hosts.len() == 1 && hosts[0] == place_on,
            ActionView::Place { cell, node } => outcome_of(a) matches CommittedView::Reshape {
                op,
                cell: c,
                hosts,
            } && op == "place"@ && c == cell && hosts.len() == 1 && hosts[0] == node,
            ActionView::Migrate { cell, from, to } => outcome_of(a) matches CommittedView::Migrate {
                cell: c,
                from: f,
                to: t,
            } && c == cell && f == from && t == to,
            ActionView::Burst { count, region } => outcome_of(a) matches CommittedView::Burst {
                count: n,
                region: r,
            } && n == count && r == region,
            ActionView::Retire { node } => outcome_of(a) matches CommittedView::Retire { node: n } && n
                == node,
        },
{
}

} // verus!
