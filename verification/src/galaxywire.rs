//! The gossip by which the nodes agree on the shape of one galaxy.
//!
//! Committed reshapes, load frames and heartbeats are folded into a decaying view of who is alive. A
//! node that falls silent fades from it after a few epochs, and that is all the failure detection
//! there is.
use vstd::prelude::*;
use vstd::string::*;

use crate::galaxy::{CellId, CellLoad};
use crate::order::{views, SortedMap};
use crate::sort::{lemma_filter_push, sort_stably, stably_sorted, Ranked};

pub mod topics;

verus! {

/// A controller at or above this load, in thousandths, owns no cells.
pub const CONTROLLER_REDLINE_PERMILLE: u32 = 900;

/// The content id of a blob.
pub type Cid = String;

/// One committed change of the galaxy's shape.
#[derive(Debug, PartialEq)]
pub struct ShapeCommit {
    /// The id of this commit.
    pub cid: Cid,
    /// The id of the commit that it extends.
    pub prev: Cid,
    /// The controller that made it.
    pub controller: String,
    /// The epoch in which it was decided.
    pub epoch: u64,
    pub op: ShapeOp,
}

/// A reshape, and where the new authority lands.
#[derive(Debug, PartialEq)]
#[allow(inconsistent_fields)]
pub enum ShapeOp {
    /// A leaf split into four children, each homed on a node and seeded from one snapshot.
    Split { cell: CellId, children: [CellId; 4], place_on: [String; 4], from_snapshot: Cid },
    /// Four siblings merged into their parent, seeded from their snapshots.
    Merge { parent: CellId, from_snapshots: [Cid; 4], place_on: String },
    /// A leaf homed on a node.
    Place { cell: CellId, node: String, from_snapshot: Option<Cid> },
    /// A leaf handed from one node to another.
    Migrate { cell: CellId, from: String, to: String, snapshot: Cid },
}

/// A reshape with texts in place of strings.
#[allow(inconsistent_fields)]
pub enum OpView {
    Split {
        cell: CellId,
        children: Seq<CellId>,
        place_on: Seq<Seq<char>>,
        from_snapshot: Seq<char>,
    },
    Merge { parent: CellId, from_snapshots: Seq<Seq<char>>, place_on: Seq<char> },
    Place { cell: CellId, node: Seq<char>, from_snapshot: Option<Seq<char>> },
    Migrate { cell: CellId, from: Seq<char>, to: Seq<char>, snapshot: Seq<char> },
}

impl View for ShapeOp {
    type V = OpView;

    open spec fn view(&self) -> OpView {
        match *self {
            ShapeOp::Split { cell, children, place_on, from_snapshot } => OpView::Split {
                cell,
                children: children@,
                place_on: views(place_on@),
                from_snapshot: from_snapshot@,
            },
            ShapeOp::Merge { parent, from_snapshots, place_on } => OpView::Merge {
                parent,
                from_snapshots: views(from_snapshots@),
                place_on: place_on@,
            },
            ShapeOp::Place { cell, node, from_snapshot } => OpView::Place {
                cell,
                node: node@,
                from_snapshot: crate::wire::text_of(from_snapshot),
            },
            ShapeOp::Migrate { cell, from, to, snapshot } => OpView::Migrate {
                cell,
                from: from@,
                to: to@,
                snapshot: snapshot@,
            },
        }
    }
}

/// A commit with texts in place of strings.
pub struct CommitView {
    pub cid: Seq<char>,
    pub prev: Seq<char>,
    pub controller: Seq<char>,
    pub epoch: u64,
    pub op: OpView,
}

impl View for ShapeCommit {
    type V = CommitView;

    open spec fn view(&self) -> CommitView {
        CommitView {
            cid: self.cid@,
            prev: self.prev@,
            controller: self.controller@,
            epoch: self.epoch,
            op: self.op@,
        }
    }
}

/// The leaves that exist after a reshape because of it.
pub open spec fn leaves_after(op: ShapeOp) -> Seq<CellId> {
    match op {
        ShapeOp::Split { cell, children, place_on, from_snapshot } => children@,
        ShapeOp::Merge { parent, from_snapshots, place_on } => seq![parent],
        ShapeOp::Place { cell, node, from_snapshot } => seq![cell],
        ShapeOp::Migrate { cell, from, to, snapshot } => seq![cell],
    }
}

impl ShapeOp {
    /// The leaves that exist after the reshape, for a follower to take over.
    pub fn resulting_leaves(&self) -> (r: Vec<CellId>)
        ensures
            r@ == leaves_after(*self),
    {
        let mut out: Vec<CellId> = Vec::new();
        match self {
            ShapeOp::Split { cell, children, place_on, from_snapshot } => {
                out.push(children[0]);
                out.push(children[1]);
                out.push(children[2]);
                out.push(children[3]);
            },
            ShapeOp::Merge { parent, from_snapshots, place_on } => {
                out.push(*parent);
            },
            ShapeOp::Place { cell, node, from_snapshot } => {
                out.push(*cell);
            },
            ShapeOp::Migrate { cell, from, to, snapshot } => {
                out.push(*cell);
            },
        }
        assert(out@ =~= leaves_after(*self));
        out
    }
}

/// A measurement of one cell.
#[derive(Debug, PartialEq)]
pub struct LoadFrame {
    pub cell: CellId,
    pub host: String,
    pub load: CellLoad,
}

/// A sign of life, with the roles and the capacity of a node.
#[derive(Debug, PartialEq)]
pub struct Heartbeat {
    pub node: String,
    pub hosts: bool,
    pub controls: bool,
    pub gateway: bool,
    pub free_cell_slots: u32,
    /// Load in thousandths.
    pub load_permille: u32,
    pub region: String,
    pub epoch: u64,
}

impl Clone for Heartbeat {
    fn clone(&self) -> (r: Self)
        ensures
            r == *self,
    {
        Heartbeat {
            node: self.node.clone(),
            hosts: self.hosts,
            controls: self.controls,
            gateway: self.gateway,
            free_cell_slots: self.free_cell_slots,
            load_permille: self.load_permille,
            region: self.region.clone(),
            epoch: self.epoch,
        }
    }
}

/// A controller in the running for ownership, by its load.
#[derive(Debug)]
pub struct Contender {
    pub node: String,
    pub load_permille: u32,
}

impl Ranked for Contender {
    open spec fn before(&self, other: &Self) -> bool {
        self.load_permille < other.load_permille
    }

    fn goes_before(&self, other: &Self) -> (r: bool) {
        self.load_permille < other.load_permille
    }

    proof fn before_asymmetric(a: &Self, b: &Self) {
    }

    proof fn before_negatively_transitive(a: &Self, b: &Self, c: &Self) {
    }
}

/// A heartbeat counts until it is more than `stale_epochs` old. One from a later epoch counts too.
pub open spec fn is_fresh(hb: Heartbeat, now_epoch: u64, stale_epochs: u64) -> bool {
    hb.epoch >= now_epoch || now_epoch - hb.epoch <= stale_epochs
}

/// The heartbeats that still count.
pub open spec fn pruned(
    live: Map<Seq<char>, Heartbeat>,
    now_epoch: u64,
    stale_epochs: u64,
) -> Map<Seq<char>, Heartbeat> {
    live.restrict(
        Set::new(|k: Seq<char>| live.contains_key(k) && is_fresh(live[k], now_epoch, stale_epochs)),
    )
}

pub open spec fn may_control(hb: Heartbeat) -> bool {
    hb.controls && hb.load_permille < CONTROLLER_REDLINE_PERMILLE
}

/// The controllers among some heartbeats, the least loaded first, ties in the order given.
pub open spec fn controllers_of(heard: Seq<Heartbeat>) -> Seq<Seq<char>> {
    stably_sorted(contenders(heard)).map_values(|c: Contender| c.node@)
}

pub open spec fn contenders(heard: Seq<Heartbeat>) -> Seq<Contender> {
    heard.filter(|hb: Heartbeat| may_control(hb)).map_values(
        |hb: Heartbeat| Contender { node: hb.node, load_permille: hb.load_permille },
    )
}

/// A node's decaying view of the control plane.
pub struct ControlView {
    /// The last heartbeat of each node.
    pub live: SortedMap<String, Heartbeat>,
    /// The id of the last reshape that was applied.
    pub head: Cid,
}

impl ControlView {
    pub open spec fn wf(&self) -> bool {
        self.live.wf()
    }

    pub fn new() -> (v: Self)
        ensures
            v.wf(),
            v.live@ == Map::<Seq<char>, Heartbeat>::empty(),
            v.head@ == Seq::<char>::empty(),
    {
        ControlView { live: SortedMap::new(), head: String::new() }
    }

    /// Takes a heartbeat in, in place of the node's earlier one.
    pub fn observe(&mut self, hb: Heartbeat)
        requires
            old(self).wf(),
        ensures
            final(self).wf(),
            final(self).live@ == old(self).live@.insert(hb.node@, hb),
            final(self).head == old(self).head,
    {
        let _ = self.live.insert(hb.node.clone(), hb);
    }

    /// Drops the nodes that have been silent for more than `stale_epochs`.
    pub fn prune(&mut self, now_epoch: u64, stale_epochs: u64)
        requires
            old(self).wf(),
        ensures
            final(self).wf(),
            final(self).live@ == pruned(old(self).live@, now_epoch, stale_epochs),
            final(self).head == old(self).head,
    {
        let ghost start = self.live@;
        let mut i: usize = 0;
        proof {
            self.live.lemma_orders();
        }
        while i < self.live.len()
            invariant
                self.live.wf(),
                self.head == old(self).head,
                i <= self.live.key_order().len(),
                forall|k: Seq<char>| #[trigger]
                    self.live@.contains_key(k) ==> start.contains_key(k) && self.live@[k]
                        == start[k],
                forall|k: Seq<char>| #[trigger]
                    start.contains_key(k) && is_fresh(start[k], now_epoch, stale_epochs)
                        ==> self.live@.contains_key(k),
                forall|j: int|
                    0 <= j < i ==> is_fresh(
                        #[trigger] self.live.value_order()[j],
                        now_epoch,
                        stale_epochs,
                    ),
            decreases self.live.key_order().len() - i,
        {
            proof {
                self.live.lemma_orders();
            }
            let hb = &self.live.values()[i];
            let ghost here = self.live.value_order()[i as int];
            if now_epoch.saturating_sub(hb.epoch) <= stale_epochs {
                i = i + 1;
            } else {
                let ghost key = self.live.key_order()[i as int]@;
                let ghost values = self.live.value_order();
                assert(self.live@.contains_pair(key, here));
                let _ = self.live.remove_at(i);
                proof {
                    assert forall|j: int| 0 <= j < i implies is_fresh(
                        #[trigger] self.live.value_order()[j],
                        now_epoch,
                        stale_epochs,
                    ) by {
                        assert(values[j] == self.live.value_order()[j]);
                    }
                }
            }
        }
        proof {
            self.live.lemma_orders();
            let end = self.live@;
            let want = pruned(start, now_epoch, stale_epochs);
            assert forall|k: Seq<char>| end.contains_key(k) <==> want.contains_key(k) by {
                if end.contains_key(k) {
                    assert(views(self.live.key_order()).contains(k));
                    let j = choose|j: int|
                        0 <= j < views(self.live.key_order()).len() && views(
                            self.live.key_order(),
                        )[j] == k;
                    assert(self.live.key_order()[j]@ == k);
                    assert(is_fresh(self.live.value_order()[j], now_epoch, stale_epochs));
                }
            }
            assert(end =~= want);
        }
    }

    /// The live controllers, the least loaded first; those that redline are left out. Equal loads
    /// are ordered by id.
    pub fn controllers(&self) -> (r: Vec<String>)
        requires
            self.wf(),
        ensures
            views(r@) == controllers_of(self.live.value_order()),
    {
        let heard = self.live.values();
        let ghost all = heard@;
        let ghost p = |hb: Heartbeat| may_control(hb);
        let ghost f = |hb: Heartbeat|
            Contender { node: hb.node, load_permille: hb.load_permille };
        let mut found: Vec<Contender> = Vec::new();
        let mut i: usize = 0;
        proof {
            reveal(Seq::filter);
            assert(all.subrange(0, 0) =~= Seq::<Heartbeat>::empty());
            assert(found@ =~= all.subrange(0, 0).filter(p).map_values(f));
        }
        while i < heard.len()
            invariant
                i <= all.len(),
                all == heard@,
                p == (|hb: Heartbeat| may_control(hb)),
                f == (|hb: Heartbeat|
                    Contender { node: hb.node, load_permille: hb.load_permille }),
                found@ == all.subrange(0, i as int).filter(p).map_values(f),
            decreases all.len() - i,
        {
            let hb = &heard[i];
            let ghost seen = all.subrange(0, i as int);
            proof {
                assert(all.subrange(0, i + 1) =~= seen.push(*hb));
                lemma_filter_push(seen, *hb, p);
            }
            if hb.controls && hb.load_permille < CONTROLLER_REDLINE_PERMILLE {
                found.push(
                    Contender { node: hb.node.clone(), load_permille: hb.load_permille },
                );
                assert(found@ =~= seen.filter(p).push(*hb).map_values(f));
            }
            i = i + 1;
        }
        assert(all.subrange(0, i as int) =~= all);
        assert(found@ =~= contenders(all));
        let sorted = sort_stably(found);
        let mut out: Vec<String> = Vec::new();
        let mut k: usize = 0;
        while k < sorted.len()
            invariant
                k <= sorted@.len(),
                out@.len() == k,
                forall|j: int| 0 <= j < k ==> #[trigger] out@[j] == sorted@[j].node,
            decreases sorted@.len() - k,
        {
            out.push(sorted[k].node.clone());
            k = k + 1;
        }
        assert(views(out@) =~= controllers_of(self.live.value_order()));
        out
    }

    /// The live hosts, by id.
    pub fn hosts(&self) -> (r: Vec<Heartbeat>)
        requires
            self.wf(),
        ensures
            r@ == self.live.value_order().filter(|hb: Heartbeat| hb.hosts),
    {
        let heard = self.live.values();
        let ghost all = heard@;
        let ghost p = |hb: Heartbeat| hb.hosts;
        let mut out: Vec<Heartbeat> = Vec::new();
        let mut i: usize = 0;
        proof {
            reveal(Seq::filter);
            assert(all.subrange(0, 0) =~= Seq::<Heartbeat>::empty());
        }
        while i < heard.len()
            invariant
                i <= all.len(),
                all == heard@,
                p == (|hb: Heartbeat| hb.hosts),
                out@ == all.subrange(0, i as int).filter(p),
            decreases all.len() - i,
        {
            let hb = &heard[i];
            proof {
                assert(all.subrange(0, i + 1) =~= all.subrange(0, i as int).push(*hb));
                lemma_filter_push(all.subrange(0, i as int), *hb, p);
            }
            if hb.hosts {
                out.push(hb.clone());
            }
            i = i + 1;
        }
        assert(all.subrange(0, i as int) =~= all);
        out
    }

    /// The live gateways, by id.
    pub fn gateways(&self) -> (r: Vec<Heartbeat>)
        requires
            self.wf(),
        ensures
            r@ == self.live.value_order().filter(|hb: Heartbeat| hb.gateway),
    {
        let heard = self.live.values();
        let ghost all = heard@;
        let ghost p = |hb: Heartbeat| hb.gateway;
        let mut out: Vec<Heartbeat> = Vec::new();
        let mut i: usize = 0;
        proof {
            reveal(Seq::filter);
            assert(all.subrange(0, 0) =~= Seq::<Heartbeat>::empty());
        }
        while i < heard.len()
            invariant
                i <= all.len(),
                all == heard@,
                p == (|hb: Heartbeat| hb.gateway),
                out@ == all.subrange(0, i as int).filter(p),
            decreases all.len() - i,
        {
            let hb = &heard[i];
            proof {
                assert(all.subrange(0, i + 1) =~= all.subrange(0, i as int).push(*hb));
                lemma_filter_push(all.subrange(0, i as int), *hb, p);
            }
            if hb.gateway {
                out.push(hb.clone());
            }
            i = i + 1;
        }
        assert(all.subrange(0, i as int) =~= all);
        out
    }

    pub fn live_count(&self) -> (n: usize)
        requires
            self.wf(),
        ensures
            self.live@.dom().finite(),
            n == self.live@.dom().len(),
    {
        self.live.len()
    }
}

/// A node that has sent a heartbeat in the last `stale_epochs` survives a prune, one that has not
/// is gone.
pub proof fn law_the_silent_fade(
    live: Map<Seq<char>, Heartbeat>,
    node: Seq<char>,
    now_epoch: u64,
    stale_epochs: u64,
)
    requires
        live.contains_key(node),
    ensures
        pruned(live, now_epoch, stale_epochs).contains_key(node) <==> is_fresh(
            live[node],
            now_epoch,
            stale_epochs,
        ),
{
}

/// A node counts as there while its last heartbeat is no older than so many epochs; then what it said still stands.
pub proof fn law_how_long_heartbeats_last(
    live: Map<Seq<char>, Heartbeat>,
    node: Seq<char>,
    now_epoch: u64,
    stale_epochs: u64,
)
    ensures
        pruned(live, now_epoch, stale_epochs).contains_key(node) <==> live.contains_key(node) && now_epoch
            <= live[node].epoch + stale_epochs,
        pruned(live, now_epoch, stale_epochs).contains_key(node) ==> pruned(
            live,
            now_epoch,
            stale_epochs,
        )[node] == live[node],
{
}

/// Who may decide: every node that takes part in control and whose load is below 90 percent, the least loaded first, and nobody else.
pub proof fn law_who_controls(heard: Seq<Heartbeat>, i: int, a: int, b: int)
    requires
        0 <= i < heard.len(),
    ensures
        heard[i].controls && heard[i].load_permille < 900 ==> controllers_of(heard).contains(
            heard[i].node@,
        ),
        (forall|k: int|
            0 <= k < heard.len() && (#[trigger] heard[k]).node@ == heard[i].node@ ==> !heard[k].controls
                || heard[k].load_permille >= 900) ==> !controllers_of(heard).contains(heard[i].node@),
        0 <= a < b < contenders(heard).len() ==> stably_sorted(contenders(heard))[a].load_permille
            <= stably_sorted(contenders(heard))[b].load_permille,
{
    let p = |hb: Heartbeat| may_control(hb);
    let f = |hb: Heartbeat| Contender { node: hb.node, load_permille: hb.load_permille };
    let c = contenders(heard);
    let s = stably_sorted(c);
    crate::sort::lemma_stably_sorted(c);
    if may_control(heard[i]) {
        assert(heard.contains(heard[i]));
        crate::sort::lemma_filter_holds(heard, p, heard[i]);
        let k = choose|k: int| 0 <= k < heard.filter(p).len() && heard.filter(p)[k] == heard[i];
        assert(c[k] == f(heard[i]));
        assert(c.contains(c[k]));
        crate::sort::lemma_sorted_contains(c, c[k]);
        let m = choose|m: int| 0 <= m < s.len() && s[m] == c[k];
        assert(controllers_of(heard)[m] == heard[i].node@);
    }
    if controllers_of(heard).contains(heard[i].node@) {
        let m = choose|m: int|
            0 <= m < controllers_of(heard).len() && controllers_of(heard)[m] == heard[i].node@;
        assert(s.contains(s[m]));
        crate::sort::lemma_sorted_contains(c, s[m]);
        let k = choose|k: int| 0 <= k < c.len() && c[k] == s[m];
        let hb = heard.filter(p)[k];
        assert(heard.filter(p).contains(hb));
        crate::sort::lemma_filter_holds(heard, p, hb);
        let q = choose|q: int| 0 <= q < heard.len() && heard[q] == hb;
        assert(heard[q].node@ == heard[i].node@);
    }
    if 0 <= a < b < c.len() {
        assert(!s[b].before(&s[a]));
    }
}

/// What there is after a commit: a split leaves its children, a merge its parent, and any other commit the cell that it is about.
pub proof fn law_cells_after_a_commit(op: ShapeOp)
    ensures
        match op {
            ShapeOp::Split { cell, children, place_on, from_snapshot } => leaves_after(op).len() == 4
                && forall|i: int| 0 <= i < 4 ==> #[trigger] leaves_after(op)[i] == children@[i],
            ShapeOp::Merge { parent, from_snapshots, place_on } => leaves_after(op).len() == 1
                && leaves_after(op)[0] == parent,
            ShapeOp::Place { cell, node, from_snapshot } => leaves_after(op).len() == 1 && leaves_after(
                op,
            )[0] == cell,
            ShapeOp::Migrate { cell, from, to, snapshot } => leaves_after(op).len() == 1 && leaves_after(
                op,
            )[0] == cell,
        },
{
}

} // verus!
