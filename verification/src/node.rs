//! The decisions of a galaxy node: which cells it runs, how it carries out a scaling action, and what it
//! makes of what it hears.
//!
//! A node works in passes. It decides on actions, has the deployments that they need attempted, and
//! carries each action out with the outcome. What is left to do is handed back as effects: cells to
//! start and to stop, and commits to announce.
use vstd::prelude::*;
use vstd::string::*;

use crate::autoscale::{
    action_views, are_tight_regions, burst_actions, decided, elasticity, leaf_action, leaf_actions, leaf_verdict,
    nodes_asked, outcome, retire_actions, within, ActionView, AutoscalePolicy, Autoscaler, Observed, ScaleAction,
};
use crate::commit::{commit_id, commit_id_of};
use crate::director::{sector_cell_spec, AtlasEntry, CellSpec, MIN_CORES, MIN_MEM_MB};
use crate::fleet::{budget_sum, ids, CapacitySource, Fleet, HostNode, NodeId, RegionHint};
use crate::galaxy::{
    children_of, lemma_valid_divides, merge_shape, parent_of, root_cell, split_shape, token_of, CellId, CellLoad, Galaxy, MAX_DEPTH,
};
use crate::galaxymap::{shaped, MapModel};
use crate::galaxywire::topics::{CONTROL, SHAPE};
use crate::galaxywire::{
    controllers_of, pruned, CommitView, ControlView, Heartbeat, LoadFrame, OpView, ShapeCommit, ShapeOp,
};
use crate::gateway::{Gateway, GatewayDirectory};
use crate::hosting::{longer_wait, Backoff, BACKOFF_START_MS};
use crate::order::{views, SortedMap, SortedSet};
use crate::orchestrator::{claimed_by, Claims};
use crate::sort::lemma_filter_push;
use crate::text::{begins_with, ends_with, finishes_with, same_text, starts_with};

verus! {

/// A controller that has been silent for more than this many epochs has left.
pub const STALE_EPOCHS: u64 = 6;

/// How long a cell that is placed on another node runs, in seconds.
pub const CELL_DURATION_SECS: u64 = 3600;

/// What is offered for it, in credits.
pub const CELL_BID_CREDITS: u64 = 100;

/// The play token of the root cell, which clients of a single sector connect to.
pub const ROOT_PLAY_TOKEN: &'static str = "0_0";

/// The service under which gateways are found.
pub const GATEWAY_SERVICE: &'static str = "ce-game/spacegame/gateway";

/// How a node takes part in the galaxy.
#[derive(Debug, PartialEq)]
pub struct NodeOpts {
    /// Be an entry point for browsers.
    pub gateway: bool,
    pub region: String,
    /// Ticks in a second of each cell.
    pub hz: u32,
    /// The image that another node runs for a cell that is placed on it.
    pub cell_image: String,
    /// A token that authorizes deployments, where one is needed.
    pub grant: Option<String>,
    /// Seconds in an epoch.
    pub epoch_secs: u64,
    /// Soft cap on the cells that this node runs.
    pub max_local_cells: u32,
    /// Soft cap on the depth of cells.
    pub max_depth: u8,
    /// Players that make a cell hot, in place of the calibrated number.
    pub split_players: Option<u32>,
}

impl Default for NodeOpts {
    fn default() -> (o: Self)
        ensures
            !o.gateway,
            o.region@ == RegionHint::UNKNOWN@,
            o.hz == 20,
            o.cell_image@ == "ce-net/spacegame:latest"@,
            o.grant is None,
            o.epoch_secs == 3,
            o.max_local_cells == 8,
            o.max_depth == 3,
            o.split_players is None,
    {
        NodeOpts {
            gateway: false,
            region: RegionHint::UNKNOWN.to_string(),
            hz: 20,
            cell_image: "ce-net/spacegame:latest".to_string(),
            grant: None,
            epoch_secs: 3,
            max_local_cells: 8,
            max_depth: 3,
            split_players: None,
        }
    }
}

/// Something that is left to do.
#[derive(Debug, PartialEq)]
#[allow(inconsistent_fields)]
pub enum Effect {
    /// Run a cell here, under its play token.
    Start { cell: CellId, token: String },
    /// Stop running a cell.
    Stop { cell: CellId },
    /// Announce a commit to the mesh.
    Announce { commit: ShapeCommit },
}

#[allow(inconsistent_fields)]
pub enum EffectView {
    Start { cell: CellId, token: Seq<char> },
    Stop { cell: CellId },
    Announce { commit: CommitView },
}

impl View for Effect {
    type V = EffectView;

    open spec fn view(&self) -> EffectView {
        match *self {
            Effect::Start { cell, token } => EffectView::Start { cell, token: token@ },
            Effect::Stop { cell } => EffectView::Stop { cell },
            Effect::Announce { commit } => EffectView::Announce { commit: commit@ },
        }
    }
}

/// A cell to be placed on another node.
#[derive(Debug, PartialEq)]
pub struct Deployment {
    pub node: NodeId,
    pub cell: CellId,
    pub spec: CellSpec,
}

/// The token that the clients of a cell connect to.
pub open spec fn play_token_of(cell: CellId) -> Seq<char> {
    if cell == root_cell() {
        ROOT_PLAY_TOKEN@
    } else {
        token_of(cell)
    }
}

/// What a node runs, what it knows of the loads, and what is left to do.
#[verifier::ext_equal]
pub struct Hosting {
    pub local: Set<CellId>,
    pub loads: Map<CellId, CellLoad>,
    pub effects: Seq<EffectView>,
}

/// A cell is run here. Nothing happens where it is run already.
pub open spec fn started(h: Hosting, cell: CellId) -> Hosting {
    if h.local.contains(cell) {
        h
    } else {
        Hosting {
            local: h.local.insert(cell),
            effects: h.effects.push(EffectView::Start { cell, token: play_token_of(cell) }),
            ..h
        }
    }
}

/// A cell is no longer run here, and its load is forgotten. Nothing happens where it is not run.
pub open spec fn stopped(h: Hosting, cell: CellId) -> Hosting {
    if h.local.contains(cell) {
        Hosting {
            local: h.local.remove(cell),
            loads: h.loads.remove(cell),
            effects: h.effects.push(EffectView::Stop { cell }),
        }
    } else {
        h
    }
}

/// The first `n` cells are no longer run here.
pub open spec fn all_stopped(h: Hosting, cells: Seq<CellId>, n: nat) -> Hosting
    decreases n,
{
    if n == 0 {
        h
    } else {
        stopped(all_stopped(h, cells, (n - 1) as nat), cells[n - 1])
    }
}

/// Those of the first `n` cells are run here that fall to this node.
pub open spec fn seated(h: Hosting, cells: Seq<CellId>, here: spec_fn(int) -> bool, n: nat) -> Hosting
    decreases n,
{
    if n == 0 {
        h
    } else {
        let before = seated(h, cells, here, (n - 1) as nat);
        if here(n - 1) {
            started(before, cells[n - 1])
        } else {
            before
        }
    }
}

/// A commit is to be announced.
pub open spec fn announced(h: Hosting, commit: CommitView) -> Hosting {
    Hosting { effects: h.effects.push(EffectView::Announce { commit }), ..h }
}

/// A node of the galaxy.
pub struct Node {
    pub me: NodeId,
    pub opts: NodeOpts,
    pub galaxy: Galaxy,
    pub control: ControlView,
    pub autoscaler: Autoscaler,
    pub map: MapModel,
    /// The last known load of each cell.
    pub loads: SortedMap<CellId, CellLoad>,
    /// The cells that this node runs.
    pub local: SortedSet<CellId>,
    /// The id of the last commit that was made or applied.
    pub head: String,
    pub epoch: u64,
}

pub open spec fn hosting_of(n: Node, effects: Seq<Effect>) -> Hosting {
    Hosting { local: n.local@, loads: n.loads@, effects: views(effects) }
}

/// Only what is run and the loads may differ.
pub open spec fn same_but_hosting(a: Node, b: Node) -> bool {
    &&& a.me == b.me
    &&& a.opts == b.opts
    &&& a.galaxy == b.galaxy
    &&& a.control == b.control
    &&& a.autoscaler == b.autoscaler
    &&& a.map == b.map
    &&& a.head == b.head
    &&& a.epoch == b.epoch
}

/// Identity, options, memory of the control plane and epoch are as they were.
pub open spec fn same_station(a: Node, b: Node) -> bool {
    &&& a.me == b.me
    &&& a.opts == b.opts
    &&& a.control == b.control
    &&& a.autoscaler == b.autoscaler
    &&& a.epoch == b.epoch
}

/// The map has been told of a reshape.
pub open spec fn told(before: MapModel, after: MapModel, epoch: u64, op: OpView) -> bool {
    exists|o: ShapeOp| o@ == op && #[trigger] shaped(before, after, epoch, o)
}

/// A split is held back: the children would be too deep, or all of them would fall to this node,
/// which runs as many cells as it may.
pub open spec fn split_held(n: Node, cell: CellId, place_on: Seq<Seq<char>>) -> bool {
    ||| cell.depth >= n.opts.max_depth
    ||| cell.depth >= MAX_DEPTH
    ||| (forall|i: int| 0 <= i < 4 ==> #[trigger] place_on[i] == n.me@) && n.local@.len() + 4
        > n.opts.max_local_cells + 1
}

/// The cells that an action names are cells of the plane.
pub open spec fn names_cells(a: ScaleAction) -> bool {
    match a {
        ScaleAction::Split { cell, place_on } => cell.valid(),
        ScaleAction::Merge { parent, place_on } => parent.valid(),
        _ => true,
    }
}

/// The cells that a reshape changes are cells of the plane.
pub open spec fn reshapes_cells(op: ShapeOp) -> bool {
    match op {
        ShapeOp::Split { cell, children, place_on, from_snapshot } => cell.valid(),
        ShapeOp::Merge { parent, from_snapshots, place_on } => parent.valid(),
        _ => true,
    }
}

/// How many deployments an action calls for, those that fall to this node counted.
pub open spec fn slots_of(n: Node, a: ScaleAction) -> nat {
    match a {
        ScaleAction::Split { cell, place_on } => if split_held(n, cell, ids(place_on@)) {
            0
        } else {
            4
        },
        ScaleAction::Place { cell, node } => 1,
        ScaleAction::Migrate { cell, from, to } => 1,
        _ => 0,
    }
}

/// The order for a cell on another node.
pub open spec fn is_deployment(d: Deployment, n: Node, node: Seq<char>, cell: CellId) -> bool {
    &&& d.node@ == node
    &&& d.cell == cell
    &&& d.spec.image@ == n.opts.cell_image@
    &&& views(d.spec.cmd@) == seq!["spacegame"@, "host"@, "--sector"@, token_of(cell)]
    &&& d.spec.cpu_cores == MIN_CORES
    &&& d.spec.mem_mb == MIN_MEM_MB
    &&& d.spec.duration_secs == CELL_DURATION_SECS
}

/// A cell goes to a node: nothing is deployed where that is this node.
pub open spec fn is_slot(s: Option<Deployment>, n: Node, node: Seq<char>, cell: CellId) -> bool {
    match s {
        Some(d) => node != n.me@ && is_deployment(d, n, node, cell),
        None => node == n.me@,
    }
}

/// The reshape that a node commits an action as. A split that is held back changes nothing, nor does
/// an action that only a cloud provider could carry out.
pub open spec fn op_of(n: Node, a: ActionView) -> Option<OpView> {
    let none = Seq::<char>::empty();
    match a {
        ActionView::Split { cell, place_on } => if split_held(n, cell, place_on) {
            None
        } else {
            Some(
                OpView::Split {
                    cell,
                    children: children_of(cell),
                    place_on,
                    from_snapshot: none,
                },
            )
        },
        ActionView::Merge { parent, place_on } => Some(
            OpView::Merge { parent, from_snapshots: seq![none, none, none, none], place_on },
        ),
        ActionView::Migrate { cell, from, to } => Some(
            OpView::Migrate { cell, from, to, snapshot: none },
        ),
        ActionView::Place { cell, node } => Some(
            OpView::Place { cell, node, from_snapshot: None },
        ),
        ActionView::Burst { count, region } => None,
        ActionView::Retire { node } => None,
    }
}

/// The commit by which a node extends the chain.
pub open spec fn commit_of(n: Node, op: OpView) -> CommitView {
    CommitView {
        cid: commit_id_of(n.head@, n.epoch, op),
        prev: n.head@,
        controller: n.me@,
        epoch: n.epoch,
        op,
    }
}

/// The cell falls to this node: it was meant for it, or the node it was meant for refused it.
pub open spec fn falls_here(
    me: Seq<char>,
    place_on: Seq<Seq<char>>,
    accepted: Seq<bool>,
) -> spec_fn(int) -> bool {
    |i: int| place_on[i] == me || !accepted[i]
}

/// What a node runs once an action is carried out, before the commit is announced.
pub open spec fn rehomed(n: Node, a: ActionView, accepted: Seq<bool>) -> Hosting {
    let h = Hosting { local: n.local@, loads: n.loads@, effects: Seq::empty() };
    match a {
        ActionView::Split { cell, place_on } => stopped(
            seated(h, children_of(cell), falls_here(n.me@, place_on, accepted), 4),
            cell,
        ),
        ActionView::Merge { parent, place_on } => {
            let kids = children_of(parent);
            let cleared = all_stopped(h, kids, kids.len());
            if place_on == n.me@ {
                started(cleared, parent)
            } else {
                cleared
            }
        },
        ActionView::Place { cell, node } => if node == n.me@ || !accepted[0] {
            started(h, cell)
        } else {
            h
        },
        _ => h,
    }
}

/// The leaves once an action is carried out.
pub open spec fn leaves_then(leaves: Set<CellId>, a: ActionView) -> Set<CellId> {
    match a {
        ActionView::Split { cell, place_on } => split_shape(leaves, cell),
        ActionView::Merge { parent, place_on } => merge_shape(leaves, parent),
        _ => leaves,
    }
}

/// What carrying an action out makes of a node.
pub open spec fn carried_out(
    before: Node,
    after: Node,
    effects: Seq<Effect>,
    a: ScaleAction,
    accepted: Seq<bool>,
) -> bool {
    match op_of(before, a@) {
        Some(op) => {
            &&& same_station(before, after)
            &&& hosting_of(after, effects) == announced(
                rehomed(before, a@, accepted),
                commit_of(before, op),
            )
            &&& after.galaxy@ == leaves_then(before.galaxy@, a@)
            &&& told(before.map, after.map, before.epoch, op)
            &&& after.head@ == commit_id_of(before.head@, before.epoch, op)
        },
        None => after == before && effects.len() == 0,
    }
}

/// The controllers that share out the cells: those that were heard, and this node, which does not
/// hear itself.
pub open spec fn voters(heard: Seq<Seq<char>>, me: Seq<char>) -> Seq<Seq<char>> {
    if heard.contains(me) {
        heard
    } else {
        heard.push(me)
    }
}

/// Load in thousandths: the cells over the most that are to be run, up to a thousand. Where none are
/// to be run the load is full.
pub open spec fn fill_permille(cells: int, budget: int) -> int {
    if budget <= 0 || cells >= budget {
        1000
    } else {
        cells * 1000 / budget
    }
}

/// The slots of a node of so many cores: two to a core.
pub open spec fn slots_for_cores(cores: u32) -> int {
    if cores == 0 {
        2
    } else {
        2 * cores
    }
}

/// A node of the atlas as a host.
pub open spec fn is_atlas_host(h: HostNode, a: AtlasEntry, region: Seq<char>) -> bool {
    &&& h.node_id == a.node_id
    &&& h.source is Donated
    &&& h.cores == a.cpu_cores
    &&& h.mem_mb == a.mem_mb
    &&& h.region@ == region
    &&& h.cells == a.running_jobs
    &&& h.cell_budget == slots_for_cores(a.cpu_cores)
    &&& h.load_permille == fill_permille(
        a.running_jobs as int,
        slots_for_cores(a.cpu_cores),
    )
    &&& h.price_per_min == 0
    &&& h.last_seen == a.last_seen_secs
}

/// This node as a host, where the atlas does not show it.
pub open spec fn is_own_host(h: HostNode, n: Node) -> bool {
    &&& h.node_id == n.me
    &&& h.source is Donated
    &&& h.cores == 2
    &&& h.mem_mb == 4096
    &&& h.region@ == n.opts.region@
    &&& h.cells == n.local@.len()
    &&& h.cell_budget == n.opts.max_local_cells
    &&& h.load_permille == fill_permille(
        n.local@.len() as int,
        n.opts.max_local_cells as int,
    )
    &&& h.price_per_min == 0
    &&& h.last_seen == 0
}

/// What a pass decided, and the loads that it decided on, as reported by this node.
pub struct Pass {
    pub actions: Vec<ScaleAction>,
    pub seen: Vec<LoadFrame>,
}

/// What a topic carries, as far as a node listens to it.
#[derive(Debug, Clone, Copy, PartialEq, Eq, Structural)]
pub enum Route {
    Shape,
    Control,
    Load,
    Other,
}

pub open spec fn route_of(topic: Seq<char>) -> Route {
    if topic == SHAPE@ {
        Route::Shape
    } else if topic == CONTROL@ {
        Route::Control
    } else if begins_with(topic, "ce-game/spacegame/"@) && finishes_with(topic, "/load"@) {
        Route::Load
    } else {
        Route::Other
    }
}

/// What a topic carries.
pub fn route(topic: &str) -> (r: Route)
    ensures
        r == route_of(topic@),
{
    if same_text(topic, SHAPE) {
        Route::Shape
    } else if same_text(topic, CONTROL) {
        Route::Control
    } else if starts_with(topic, "ce-game/spacegame/") && ends_with(topic, "/load") {
        Route::Load
    } else {
        Route::Other
    }
}

fn fill_of(cells: u64, budget: u64) -> (r: u32)
    requires
        cells <= 0xffff_ffff,
    ensures
        r == fill_permille(cells as int, budget as int),
{
    if budget == 0 || cells >= budget {
        1000
    } else {
        let q: u64 = cells * 1000 / budget;
        assert(cells * 1000 / budget as int <= 1000) by (nonlinear_arith)
            requires
                0 <= cells < budget,
        ;
        q as u32
    }
}

/// What applying another node's commit makes of a node: the same reshape, and those of its cells are
/// run here that were meant for this node.
pub open spec fn followed(before: Node, after: Node, effects: Seq<Effect>, c: ShapeCommit) -> bool {
    let h = Hosting { local: before.local@, loads: before.loads@, effects: Seq::empty() };
    let me = before.me@;
    &&& same_station(before, after)
    &&& shaped(before.map, after.map, c.epoch, c.op)
    &&& after.head == c.cid
    &&& match c.op {
        ShapeOp::Split { cell, children, place_on, from_snapshot } => {
            &&& after.galaxy@ == split_shape(before.galaxy@, cell)
            &&& hosting_of(after, effects) == seated(
                stopped(h, cell),
                children@,
                meant_for(me, views(place_on@)),
                4,
            )
        },
        ShapeOp::Merge { parent, from_snapshots, place_on } => {
            let kids = children_of(parent);
            let cleared = all_stopped(h, kids, kids.len());
            &&& after.galaxy@ == merge_shape(before.galaxy@, parent)
            &&& hosting_of(after, effects) == (if place_on@ == me {
                started(cleared, parent)
            } else {
                cleared
            })
        },
        ShapeOp::Place { cell, node, from_snapshot } => {
            &&& after.galaxy@ == before.galaxy@
            &&& hosting_of(after, effects) == (if node@ == me {
                started(h, cell)
            } else {
                h
            })
        },
        ShapeOp::Migrate { cell, from, to, snapshot } => {
            &&& after.galaxy@ == before.galaxy@
            &&& hosting_of(after, effects) == (if to@ == me {
                started(h, cell)
            } else if from@ == me {
                stopped(h, cell)
            } else {
                h
            })
        },
    }
}

pub open spec fn meant_for(me: Seq<char>, place_on: Seq<Seq<char>>) -> spec_fn(int) -> bool {
    |i: int| place_on[i] == me
}

/// A node that has just started, and what it has to do.
pub open spec fn has_started(n: Node, effects: Seq<Effect>, me: NodeId, opts: NodeOpts) -> bool {
    &&& n.me == me
    &&& n.opts == opts
    &&& n.galaxy@ == set![root_cell()]
    &&& n.control.live@ == Map::<Seq<char>, Heartbeat>::empty()
    &&& n.autoscaler.dwell@ == Map::<CellId, crate::autoscale::Dwell>::empty()
    &&& n.autoscaler.burst_cooldown@ == Map::<Seq<char>, u64>::empty()
    &&& n.map.galaxy@ == set![root_cell()]
    &&& n.map.hosts@ == Map::<CellId, String>::empty()
    &&& n.map.loads@ == Map::<CellId, CellLoad>::empty()
    &&& n.loads@ == Map::<CellId, CellLoad>::empty()
    &&& n.epoch == 0
    &&& {
        let none = Seq::<char>::empty();
        let op = OpView::Place { cell: root_cell(), node: me@, from_snapshot: None };
        let cid = commit_id_of(none, 0, op);
        if opts.gateway {
            &&& n.local@ == set![root_cell()]
            &&& n.head@ == cid
            &&& views(effects) == seq![
                EffectView::Start { cell: root_cell(), token: ROOT_PLAY_TOKEN@ },
                EffectView::Announce {
                    commit: CommitView { cid, prev: none, controller: me@, epoch: 0, op },
                },
            ]
        } else {
            &&& n.local@ == Set::<CellId>::empty()
            &&& n.head@ == none
            &&& effects.len() == 0
        }
    }
}

impl Node {
    pub open spec fn wf(&self) -> bool {
        &&& self.galaxy.wf()
        &&& self.control.wf()
        &&& self.autoscaler.wf()
        &&& self.map.wf()
        &&& self.loads.wf()
        &&& self.local.wf()
        &&& forall|c: CellId| self.galaxy@.contains(c) ==> #[trigger] c.valid()
    }

    fn host_cell(&mut self, cell: CellId, effects: &mut Vec<Effect>)
        requires
            old(self).wf(),
        ensures
            final(self).wf(),
            same_but_hosting(*old(self), *final(self)),
            hosting_of(*final(self), final(effects)@) == started(
                hosting_of(*old(self), old(effects)@),
                cell,
            ),
    {
        if self.local.contains(&cell) {
            return ;
        }
        let root: CellId = CellId::root();
        let token: String = if cell == root {
            ROOT_PLAY_TOKEN.to_string()
        } else {
            cell.token()
        };
        let ghost before = hosting_of(*self, effects@);
        let _ = self.local.insert(cell);
        effects.push(Effect::Start { cell, token });
        proof {
            assert(views(effects@) =~= before.effects.push(
                EffectView::Start { cell, token: play_token_of(cell) },
            ));
            assert(hosting_of(*self, effects@) =~= started(before, cell));
        }
    }

    fn unhost_cell(&mut self, cell: CellId, effects: &mut Vec<Effect>)
        requires
            old(self).wf(),
        ensures
            final(self).wf(),
            same_but_hosting(*old(self), *final(self)),
            hosting_of(*final(self), final(effects)@) == stopped(
                hosting_of(*old(self), old(effects)@),
                cell,
            ),
    {
        let ghost before = hosting_of(*self, effects@);
        if self.local.remove(&cell) {
            let _ = self.loads.remove(&cell);
            effects.push(Effect::Stop { cell });
            proof {
                assert(views(effects@) =~= before.effects.push(EffectView::Stop { cell }));
                assert(hosting_of(*self, effects@) =~= stopped(before, cell));
            }
        } else {
            proof {
                assert(self.local@ =~= before.local);
                assert(hosting_of(*self, effects@) =~= before);
            }
        }
    }

    fn unhost_all(&mut self, cells: &Vec<CellId>, effects: &mut Vec<Effect>)
        requires
            old(self).wf(),
        ensures
            final(self).wf(),
            same_but_hosting(*old(self), *final(self)),
            hosting_of(*final(self), final(effects)@) == all_stopped(
                hosting_of(*old(self), old(effects)@),
                cells@,
                cells@.len(),
            ),
    {
        let ghost h = hosting_of(*self, effects@);
        let mut i: usize = 0;
        while i < cells.len()
            invariant
                i <= cells@.len(),
                self.wf(),
                same_but_hosting(*old(self), *self),
                hosting_of(*self, effects@) == all_stopped(h, cells@, i as nat),
            decreases cells@.len() - i,
        {
            self.unhost_cell(cells[i], effects);
            i = i + 1;
        }
    }

    fn commit_shape(&mut self, op: ShapeOp, effects: &mut Vec<Effect>)
        requires
            old(self).wf(),
        ensures
            final(self).wf(),
            same_station(*old(self), *final(self)),
            final(self).galaxy == old(self).galaxy,
            final(self).map == old(self).map,
            final(self).head@ == commit_id_of(old(self).head@, old(self).epoch, op@),
            hosting_of(*final(self), final(effects)@) == announced(
                hosting_of(*old(self), old(effects)@),
                commit_of(*old(self), op@),
            ),
    {
        let ghost before = hosting_of(*self, effects@);
        let cid: String = commit_id(self.head.as_str(), self.epoch, &op);
        let prev: String = self.head.clone();
        self.head = cid.clone();
        let commit = ShapeCommit {
            cid,
            prev,
            controller: self.me.clone(),
            epoch: self.epoch,
            op,
        };
        effects.push(Effect::Announce { commit });
        proof {
            assert(views(effects@) =~= before.effects.push(
                EffectView::Announce { commit: commit@ },
            ));
            assert(hosting_of(*self, effects@) =~= announced(before, commit@));
        }
    }

    fn holds_back(&self, cell: &CellId, place_on: &[NodeId; 4]) -> (r: bool)
        requires
            self.wf(),
        ensures
            r == split_held(*self, *cell, ids(place_on@)),
    {
        if cell.depth >= self.opts.max_depth || cell.depth >= MAX_DEPTH {
            return true;
        }
        let me: &str = self.me.as_str();
        let all_local: bool = same_text(place_on[0].as_str(), me) && same_text(
            place_on[1].as_str(),
            me,
        ) && same_text(place_on[2].as_str(), me) && same_text(place_on[3].as_str(), me);
        proof {
            let p = ids(place_on@);
            assert(all_local == (p[0] == me@ && p[1] == me@ && p[2] == me@ && p[3] == me@));
        }
        let n: usize = self.local.len();
        all_local && n as u128 + 4 > self.opts.max_local_cells as u128 + 1
    }

    fn deployment(&self, node: &NodeId, cell: CellId) -> (d: Deployment)
        ensures
            is_deployment(d, *self, node@, cell),
    {
        Deployment {
            node: node.clone(),
            cell,
            spec: sector_cell_spec(
                cell.token().as_str(),
                self.opts.cell_image.as_str(),
                CELL_DURATION_SECS,
            ),
        }
    }

    fn slot(&self, node: &NodeId, cell: CellId) -> (s: Option<Deployment>)
        ensures
            is_slot(s, *self, node@, cell),
    {
        if same_text(node.as_str(), self.me.as_str()) {
            None
        } else {
            Some(self.deployment(node, cell))
        }
    }

    /// The deployments that an action calls for. A cell that falls to this node leaves its place
    /// empty; a cell that is moved is deployed wherever it goes.
    pub fn deployments(&self, action: &ScaleAction) -> (r: Vec<Option<Deployment>>)
        requires
            self.wf(),
            names_cells(*action),
        ensures
            r@.len() == slots_of(*self, *action),
            match *action {
                ScaleAction::Split { cell, place_on } => forall|i: int|
                    0 <= i < r@.len() ==> is_slot(
                        #[trigger] r@[i],
                        *self,
                        place_on@[i]@,
                        children_of(cell)[i],
                    ),
                ScaleAction::Place { cell, node } => is_slot(r@[0], *self, node@, cell),
                ScaleAction::Migrate { cell, from, to } => r@[0] is Some && is_deployment(
                    r@[0]->0,
                    *self,
                    to@,
                    cell,
                ),
                _ => true,
            },
    {
        let mut out: Vec<Option<Deployment>> = Vec::new();
        match action {
            ScaleAction::Split { cell, place_on } => {
                proof {
                    lemma_valid_divides(*cell);
                }
                if !self.holds_back(cell, place_on) {
                    let kids = cell.children();
                    out.push(self.slot(&place_on[0], kids[0]));
                    out.push(self.slot(&place_on[1], kids[1]));
                    out.push(self.slot(&place_on[2], kids[2]));
                    out.push(self.slot(&place_on[3], kids[3]));
                }
            },
            ScaleAction::Place { cell, node } => {
                out.push(self.slot(node, *cell));
            },
            ScaleAction::Migrate { cell, from, to } => {
                out.push(Some(self.deployment(to, *cell)));
            },
            ScaleAction::Merge { parent, place_on } => {},
            ScaleAction::Burst { count, region } => {},
            ScaleAction::Retire { node } => {},
        }
        out
    }

    fn seat_kids(
        &mut self,
        kids: &Vec<CellId>,
        place_on: &[NodeId; 4],
        accepted: &Vec<bool>,
        effects: &mut Vec<Effect>,
    )
        requires
            old(self).wf(),
            kids@.len() == 4,
            accepted@.len() == 4,
        ensures
            final(self).wf(),
            same_but_hosting(*old(self), *final(self)),
            hosting_of(*final(self), final(effects)@) == seated(
                hosting_of(*old(self), old(effects)@),
                kids@,
                falls_here(old(self).me@, ids(place_on@), accepted@),
                4,
            ),
    {
        let ghost h = hosting_of(*self, effects@);
        let ghost here = falls_here(self.me@, ids(place_on@), accepted@);
        let mut i: usize = 0;
        while i < 4
            invariant
                i <= 4,
                kids@.len() == 4,
                accepted@.len() == 4,
                self.wf(),
                same_but_hosting(*old(self), *self),
                here == falls_here(self.me@, ids(place_on@), accepted@),
                hosting_of(*self, effects@) == seated(h, kids@, here, i as nat),
            decreases 4 - i,
        {
            assert(ids(place_on@)[i as int] == place_on@[i as int]@);
            if same_text(place_on[i].as_str(), self.me.as_str()) || !accepted[i] {
                assert(here(i as int));
                self.host_cell(kids[i], effects);
            }
            i = i + 1;
        }
    }

    fn seat_meant(&mut self, kids: &[CellId; 4], place_on: &[NodeId; 4], effects: &mut Vec<Effect>)
        requires
            old(self).wf(),
        ensures
            final(self).wf(),
            same_but_hosting(*old(self), *final(self)),
            hosting_of(*final(self), final(effects)@) == seated(
                hosting_of(*old(self), old(effects)@),
                kids@,
                meant_for(old(self).me@, views(place_on@)),
                4,
            ),
    {
        let ghost h = hosting_of(*self, effects@);
        let ghost here = meant_for(self.me@, views(place_on@));
        let mut i: usize = 0;
        while i < 4
            invariant
                i <= 4,
                self.wf(),
                same_but_hosting(*old(self), *self),
                here == meant_for(self.me@, views(place_on@)),
                hosting_of(*self, effects@) == seated(h, kids@, here, i as nat),
            decreases 4 - i,
        {
            assert(views(place_on@)[i as int] == place_on@[i as int]@);
            if same_text(place_on[i].as_str(), self.me.as_str()) {
                assert(here(i as int));
                self.host_cell(kids[i], effects);
            }
            i = i + 1;
        }
    }

    fn execute_split(
        &mut self,
        cell: CellId,
        place_on: &[NodeId; 4],
        accepted: &Vec<bool>,
        effects: &mut Vec<Effect>,
    )
        requires
            old(self).wf(),
            cell.valid(),
            cell.depth < MAX_DEPTH,
            accepted@.len() == 4,
            old(effects)@.len() == 0,
        ensures
            final(self).wf(),
            ({
                let a = ActionView::Split { cell, place_on: ids(place_on@) };
                let op = OpView::Split {
                    cell,
                    children: children_of(cell),
                    place_on: ids(place_on@),
                    from_snapshot: Seq::empty(),
                };
                &&& same_station(*old(self), *final(self))
                &&& hosting_of(*final(self), final(effects)@) == announced(
                    rehomed(*old(self), a, accepted@),
                    commit_of(*old(self), op),
                )
                &&& final(self).galaxy@ == split_shape(old(self).galaxy@, cell)
                &&& told(old(self).map, final(self).map, old(self).epoch, op)
                &&& final(self).head@ == commit_id_of(old(self).head@, old(self).epoch, op)
            }),
    {
        let ghost start = *self;
        let ghost h0 = Hosting { local: self.local@, loads: self.loads@, effects: Seq::empty() };
        proof {
            assert(hosting_of(*self, effects@) =~= h0);
            lemma_valid_divides(cell);
        }
        let kids = cell.children();
        self.seat_kids(&kids, place_on, accepted, effects);
        self.unhost_cell(cell, effects);
        self.galaxy.split(cell);
        let op = ShapeOp::Split {
            cell,
            children: [kids[0], kids[1], kids[2], kids[3]],
            place_on: [
                place_on[0].clone(),
                place_on[1].clone(),
                place_on[2].clone(),
                place_on[3].clone(),
            ],
            from_snapshot: String::new(),
        };
        self.map.on_shape(self.epoch, &op);
        proof {
            lemma_split_stays_valid(start.galaxy@, cell);
            lemma_split_op(op, ActionView::Split { cell, place_on: ids(place_on@) });
            assert(told(start.map, self.map, start.epoch, op@));
        }
        self.commit_shape(op, effects);
    }

    fn execute_merge(&mut self, parent: CellId, place_on: &NodeId, effects: &mut Vec<Effect>)
        requires
            old(self).wf(),
            parent.valid(),
            old(effects)@.len() == 0,
        ensures
            final(self).wf(),
            ({
                let none = Seq::<char>::empty();
                let a = ActionView::Merge { parent, place_on: place_on@ };
                let op = OpView::Merge {
                    parent,
                    from_snapshots: seq![none, none, none, none],
                    place_on: place_on@,
                };
                &&& same_station(*old(self), *final(self))
                &&& hosting_of(*final(self), final(effects)@) == announced(
                    rehomed(*old(self), a, Seq::empty()),
                    commit_of(*old(self), op),
                )
                &&& final(self).galaxy@ == merge_shape(old(self).galaxy@, parent)
                &&& told(old(self).map, final(self).map, old(self).epoch, op)
                &&& final(self).head@ == commit_id_of(old(self).head@, old(self).epoch, op)
            }),
    {
        let ghost start = *self;
        let ghost h0 = Hosting { local: self.local@, loads: self.loads@, effects: Seq::empty() };
        proof {
            assert(hosting_of(*self, effects@) =~= h0);
            lemma_valid_divides(parent);
        }
        let kids = parent.children();
        self.unhost_all(&kids, effects);
        if same_text(place_on.as_str(), self.me.as_str()) {
            self.host_cell(parent, effects);
        }
        self.galaxy.merge(parent);
        let op = ShapeOp::Merge {
            parent,
            from_snapshots: [String::new(), String::new(), String::new(), String::new()],
            place_on: place_on.clone(),
        };
        self.map.on_shape(self.epoch, &op);
        proof {
            let none = Seq::<char>::empty();
            assert(views(op->from_snapshots@) =~= seq![none, none, none, none]);
            assert(told(start.map, self.map, start.epoch, op@));
        }
        self.commit_shape(op, effects);
    }

    /// Carries an action out, given which of its deployments were accepted. A child or a placed cell
    /// whose deployment was refused is run here.
    pub fn execute(&mut self, action: &ScaleAction, accepted: &Vec<bool>) -> (effects: Vec<Effect>)
        requires
            old(self).wf(),
            names_cells(*action),
            accepted@.len() == slots_of(*old(self), *action),
        ensures
            final(self).wf(),
            carried_out(*old(self), *final(self), effects@, *action, accepted@),
    {
        let mut effects: Vec<Effect> = Vec::new();
        let ghost start = *self;
        let ghost h0 = Hosting { local: self.local@, loads: self.loads@, effects: Seq::empty() };
        assert(hosting_of(*self, effects@) =~= h0);
        match action {
            ScaleAction::Split { cell, place_on } => {
                if !self.holds_back(cell, place_on) {
                    self.execute_split(*cell, place_on, accepted, &mut effects);
                }
            },
            ScaleAction::Merge { parent, place_on } => {
                assert(accepted@ =~= Seq::<bool>::empty());
                self.execute_merge(*parent, place_on, &mut effects);
            },
            ScaleAction::Place { cell, node } => {
                if same_text(node.as_str(), self.me.as_str()) || !accepted[0] {
                    self.host_cell(*cell, &mut effects);
                }
                let op = ShapeOp::Place { cell: *cell, node: node.clone(), from_snapshot: None };
                self.map.on_shape(self.epoch, &op);
                assert(told(start.map, self.map, start.epoch, op@));
                self.commit_shape(op, &mut effects);
            },
            ScaleAction::Migrate { cell, from, to } => {
                let op = ShapeOp::Migrate {
                    cell: *cell,
                    from: from.clone(),
                    to: to.clone(),
                    snapshot: String::new(),
                };
                self.map.on_shape(self.epoch, &op);
                assert(told(start.map, self.map, start.epoch, op@));
                self.commit_shape(op, &mut effects);
            },
            ScaleAction::Burst { count, region } => {},
            ScaleAction::Retire { node } => {},
        }
        effects
    }

    /// Applies a commit of another node.
    pub fn apply_remote_commit(&mut self, c: &ShapeCommit) -> (effects: Vec<Effect>)
        requires
            old(self).wf(),
            reshapes_cells(c.op),
        ensures
            final(self).wf(),
            followed(*old(self), *final(self), effects@, *c),
    {
        let mut effects: Vec<Effect> = Vec::new();
        let ghost start = *self;
        let ghost h0 = Hosting { local: self.local@, loads: self.loads@, effects: Seq::empty() };
        assert(hosting_of(*self, effects@) =~= h0);
        match &c.op {
            ShapeOp::Split { cell, children, place_on, from_snapshot } => {
                proof {
                    lemma_valid_divides(*cell);
                    lemma_split_stays_valid(start.galaxy@, *cell);
                }
                self.galaxy.split(*cell);
                assert(hosting_of(*self, effects@) =~= h0);
                self.unhost_cell(*cell, &mut effects);
                self.seat_meant(children, place_on, &mut effects);
            },
            ShapeOp::Merge { parent, from_snapshots, place_on } => {
                proof {
                    lemma_valid_divides(*parent);
                }
                self.galaxy.merge(*parent);
                let kids = parent.children();
                assert(hosting_of(*self, effects@) =~= h0);
                self.unhost_all(&kids, &mut effects);
                if same_text(place_on.as_str(), self.me.as_str()) {
                    self.host_cell(*parent, &mut effects);
                }
            },
            ShapeOp::Place { cell, node, from_snapshot } => {
                if same_text(node.as_str(), self.me.as_str()) {
                    self.host_cell(*cell, &mut effects);
                }
            },
            ShapeOp::Migrate { cell, from, to, snapshot } => {
                if same_text(to.as_str(), self.me.as_str()) {
                    self.host_cell(*cell, &mut effects);
                } else if same_text(from.as_str(), self.me.as_str()) {
                    self.unhost_cell(*cell, &mut effects);
                }
            },
        }
        self.map.on_shape(c.epoch, &c.op);
        self.head = c.cid.clone();
        effects
    }

    /// The autoscaler's knobs under some options.
    pub fn policy_for(opts: &NodeOpts) -> (p: AutoscalePolicy)
        ensures
            p.scale.split_players == (match opts.split_players {
                Some(n) => n,
                None => 150,
            }),
            p.scale.split_entities == 4_000,
            p.scale.split_tick_us == 35_000,
            p.scale.split_bandwidth_bps == 12_000_000,
            p.scale.merge_percent == 30,
            p.scale.dwell_epochs == 3,
            p.burst_below_permille == 150,
            p.retire_above_permille == 550,
            p.max_burst_per_pass == 32,
            p.burst_cooldown_epochs == 4,
    {
        let mut policy = AutoscalePolicy::default();
        if let Some(n) = opts.split_players {
            policy.scale.split_players = n;
        }
        policy
    }

    /// A node that has just started. A gateway runs the root cell, so that there is always an arena
    /// to join; any other node waits for what the galaxy assigns it.
    pub fn start(me: NodeId, opts: NodeOpts) -> (r: (Node, Vec<Effect>))
        ensures
            r.0.wf(),
            has_started(r.0, r.1@, me, opts),
    {
        let policy = Node::policy_for(&opts);
        let gateway: bool = opts.gateway;
        let mut n = Node {
            me,
            opts,
            galaxy: Galaxy::genesis(),
            control: ControlView::new(),
            autoscaler: Autoscaler::new(policy),
            map: MapModel::new(),
            loads: SortedMap::new(),
            local: SortedSet::new(),
            head: String::new(),
            epoch: 0,
        };
        let mut effects: Vec<Effect> = Vec::new();
        proof {
            vstd::arithmetic::power2::lemma2_to64();
            assert(root_cell().valid());
        }
        if gateway {
            let ghost h0 = hosting_of(n, effects@);
            let root: CellId = CellId::root();
            n.host_cell(root, &mut effects);
            let node: NodeId = n.me.clone();
            n.commit_shape(ShapeOp::Place { cell: root, node, from_snapshot: None }, &mut effects);
            proof {
                let want = seq![
                    EffectView::Start { cell: root_cell(), token: ROOT_PLAY_TOKEN@ },
                    views(effects@)[1],
                ];
                assert(h0.effects =~= Seq::<EffectView>::empty());
                assert(views(effects@) =~= want);
                assert(n.local@ =~= set![root_cell()]);
            }
        }
        (n, effects)
    }

    /// The node stops: every cell that it runs is stopped.
    pub fn stop_all(&mut self) -> (effects: Vec<Effect>)
        requires
            old(self).wf(),
        ensures
            final(self).wf(),
            same_but_hosting(*old(self), *final(self)),
            hosting_of(*final(self), effects@) == all_stopped(
                Hosting {
                    local: old(self).local@,
                    loads: old(self).loads@,
                    effects: Seq::empty(),
                },
                old(self).local.order(),
                old(self).local.order().len(),
            ),
            final(self).local@ == Set::<CellId>::empty(),
    {
        let mut effects: Vec<Effect> = Vec::new();
        let ghost h0 = Hosting { local: self.local@, loads: self.loads@, effects: Seq::empty() };
        assert(hosting_of(*self, effects@) =~= h0);
        let items = self.local.items();
        let ghost order = items@;
        let ghost all = self.local@;
        let mut cells: Vec<CellId> = Vec::new();
        let mut i: usize = 0;
        while i < items.len()
            invariant
                i <= items@.len(),
                cells@ == items@.subrange(0, i as int),
            decreases items@.len() - i,
        {
            cells.push(items[i]);
            i = i + 1;
            assert(cells@ =~= items@.subrange(0, i as int));
        }
        assert(cells@ =~= order);
        assert(views(order) =~= order);
        self.unhost_all(&cells, &mut effects);
        proof {
            lemma_all_stopped(h0, order, order.len());
            let end = all_stopped(h0, order, order.len());
            assert(end.local == self.local@);
            assert forall|c: CellId| !self.local@.contains(c) by {
                if self.local@.contains(c) {
                    assert(end.local.contains(c));
                    assert(all.contains(c));
                    assert(order.contains(c));
                    let j = choose|j: int| 0 <= j < order.len() && order[j] == c;
                    assert(order[j] == c);
                }
            }
            assert(self.local@ =~= Set::<CellId>::empty());
        }
        effects
    }

    fn hears_itself(controllers: &Vec<NodeId>, me: &str) -> (r: bool)
        ensures
            r == views(controllers@).contains(me@),
    {
        let mut i: usize = 0;
        while i < controllers.len()
            invariant
                i <= controllers@.len(),
                forall|j: int| 0 <= j < i ==> (#[trigger] controllers@[j])@ != me@,
            decreases controllers@.len() - i,
        {
            if same_text(controllers[i].as_str(), me) {
                assert(views(controllers@)[i as int] == me@);
                return true;
            }
            i = i + 1;
        }
        assert forall|j: int| 0 <= j < controllers@.len() implies views(controllers@)[j] != me@ by {
            assert(controllers@[j]@ != me@);
        }
        false
    }

    /// One pass: the epoch moves on, those who have fallen silent are forgotten, and what is to be
    /// done about the cells of this node is decided on the loads and the fleet.
    pub fn decide(&mut self, fleet: &Fleet) -> (pass: Pass)
        requires
            old(self).wf(),
            old(self).epoch < u64::MAX,
            budget_sum(fleet.hosts@) <= u32::MAX,
            fleet.hosts@.len() <= u32::MAX,
        ensures
            final(self).wf(),
            final(self).epoch == old(self).epoch + 1,
            final(self).me == old(self).me,
            final(self).opts == old(self).opts,
            final(self).galaxy == old(self).galaxy,
            final(self).map == old(self).map,
            final(self).loads == old(self).loads,
            final(self).local == old(self).local,
            final(self).head == old(self).head,
            final(self).control.live@ == pruned(
                old(self).control.live@,
                final(self).epoch,
                STALE_EPOCHS,
            ),
            decided(
                old(self).autoscaler,
                final(self).autoscaler,
                pass.actions@,
                final(self).epoch,
                old(self).galaxy.leaf_order(),
                Observed {
                    owned: claimed_by(
                        old(self).me@,
                        voters(
                            controllers_of(final(self).control.live.value_order()),
                            old(self).me@,
                        ),
                    ),
                    loads: old(self).loads@,
                    hosts: fleet.hosts@,
                    policy: old(self).autoscaler.policy.scale,
                },
            ),
            forall|i: int|
                0 <= i < pass.actions@.len() ==> names_cells(#[trigger] pass.actions@[i]),
            pass.seen@.len() == old(self).loads.key_order().len(),
            forall|i: int|
                0 <= i < pass.seen@.len() ==> #[trigger] pass.seen@[i] == (LoadFrame {
                    cell: old(self).loads.key_order()[i],
                    host: old(self).me,
                    load: old(self).loads.value_order()[i],
                }),
    {
        self.epoch = self.epoch + 1;
        self.control.prune(self.epoch, STALE_EPOCHS);
        let mut controllers = self.control.controllers();
        let ghost heard = views(controllers@);
        if !Node::hears_itself(&controllers, self.me.as_str()) {
            controllers.push(self.me.clone());
            assert(views(controllers@) =~= heard.push(self.me@));
        }
        assert(ids(controllers@) =~= views(controllers@));
        let claims = Claims { me: &self.me, controllers: &controllers };
        proof {
            assert forall|c: CellId| self.galaxy@.contains(c) implies #[trigger] c.divisible() by {
                assert(c.valid());
                lemma_valid_divides(c);
            }
        }
        let actions = self.autoscaler.decide(
            self.epoch,
            &self.galaxy,
            &self.loads,
            fleet,
            &claims,
        );
        let keys = self.loads.keys();
        let values = self.loads.values();
        proof {
            self.loads.lemma_orders();
        }
        let mut seen: Vec<LoadFrame> = Vec::new();
        let mut i: usize = 0;
        while i < keys.len()
            invariant
                i <= keys@.len() == values@.len(),
                seen@.len() == i,
                forall|j: int|
                    0 <= j < i ==> #[trigger] seen@[j] == (LoadFrame {
                        cell: keys@[j],
                        host: self.me,
                        load: values@[j],
                    }),
            decreases keys@.len() - i,
        {
            seen.push(LoadFrame { cell: keys[i], host: self.me.clone(), load: values[i] });
            i = i + 1;
        }
        proof {
            let o = Observed {
                owned: claimed_by(self.me@, views(controllers@)),
                loads: self.loads@,
                hosts: fleet.hosts@,
                policy: old(self).autoscaler.policy.scale,
            };
            let leaves = self.galaxy.leaf_order();
            self.galaxy.lemma_leaves();
            assert forall|i: int| 0 <= i < leaves.len() implies (#[trigger] leaves[i]).valid() by {
                assert(leaves.contains(leaves[i]));
                assert(self.galaxy@.contains(leaves[i]));
            }
            lemma_names_cells(
                old(self).autoscaler,
                self.autoscaler,
                actions@,
                self.epoch,
                leaves,
                o,
            );
        }
        Pass { actions, seen }
    }

    /// The end of a pass: the map takes in the loads that were decided on.
    pub fn finish(&mut self, seen: Vec<LoadFrame>)
        requires
            old(self).wf(),
        ensures
            final(self).wf(),
            same_station(*old(self), *final(self)),
            final(self).galaxy == old(self).galaxy,
            final(self).loads == old(self).loads,
            final(self).local == old(self).local,
            final(self).head == old(self).head,
            final(self).map.galaxy == old(self).map.galaxy,
            final(self).map.events == old(self).map.events,
            final(self).map.event_cap == old(self).map.event_cap,
            final(self).map.loads@ == loads_taken(old(self).map.loads@, seen@, seen@.len()),
            final(self).map.hosts@ == hosts_taken(old(self).map.hosts@, seen@, seen@.len()),
    {
        let ghost all = seen@;
        let mut seen: Vec<LoadFrame> = seen;
        let ghost mut taken: nat = 0;
        assert(all.subrange(0, all.len() as int) =~= all);
        while seen.len() > 0
            invariant
                taken <= all.len(),
                seen@ == all.subrange(taken as int, all.len() as int),
                self.wf(),
                same_station(*old(self), *self),
                self.galaxy == old(self).galaxy,
                self.loads == old(self).loads,
                self.local == old(self).local,
                self.head == old(self).head,
                self.map.galaxy == old(self).map.galaxy,
                self.map.events == old(self).map.events,
                self.map.event_cap == old(self).map.event_cap,
                self.map.loads@ == loads_taken(old(self).map.loads@, all, taken),
                self.map.hosts@ == hosts_taken(old(self).map.hosts@, all, taken),
            decreases seen@.len(),
        {
            let f: LoadFrame = seen.remove(0);
            proof {
                assert(f == all[taken as int]);
                assert(seen@ =~= all.subrange((taken + 1) as int, all.len() as int));
            }
            self.map.on_load(f);
            proof {
                taken = taken + 1;
            }
        }
        assert(taken == all.len());
    }

    /// The sign of life of this node.
    pub fn heartbeat(&self) -> (hb: Heartbeat)
        requires
            self.wf(),
            self.local@.len() <= u32::MAX,
        ensures
            hb.node == self.me,
            hb.hosts,
            hb.controls,
            hb.gateway == self.opts.gateway,
            hb.free_cell_slots == (if self.local@.len() < self.opts.max_local_cells {
                self.opts.max_local_cells - self.local@.len()
            } else {
                0
            }),
            hb.load_permille == fill_permille(
                self.local@.len() as int,
                self.opts.max_local_cells as int,
            ),
            hb.region == self.opts.region,
            hb.epoch == self.epoch,
    {
        let local: u32 = self.local.len() as u32;
        Heartbeat {
            node: self.me.clone(),
            hosts: true,
            controls: true,
            gateway: self.opts.gateway,
            free_cell_slots: self.opts.max_local_cells.saturating_sub(local),
            load_permille: fill_of(local as u64, self.opts.max_local_cells as u64),
            region: self.opts.region.clone(),
            epoch: self.epoch,
        }
    }

    /// The fleet as the atlas shows it, with this node in any case.
    pub fn build_fleet(&self, atlas: &Vec<AtlasEntry>) -> (f: Fleet)
        requires
            self.wf(),
            self.local@.len() <= u32::MAX,
            forall|i: int| 0 <= i < atlas@.len() ==> (#[trigger] atlas@[i]).cpu_cores <= 0x7fff_ffff,
        ensures
            f.cell_boot == self.opts.cell_image,
            forall|i: int|
                #![trigger f.hosts@[i]]
                0 <= i < atlas@.len() ==> is_atlas_host(
                    f.hosts@[i],
                    atlas@[i],
                    self.opts.region@,
                ),
            ({
                let shown = exists|i: int|
                    0 <= i < atlas@.len() && (#[trigger] atlas@[i]).node_id@ == self.me@;
                if shown {
                    f.hosts@.len() == atlas@.len()
                } else {
                    f.hosts@.len() == atlas@.len() + 1 && is_own_host(
                        f.hosts@[atlas@.len() as int],
                        *self,
                    )
                }
            }),
    {
        let mut hosts: Vec<HostNode> = Vec::new();
        let mut shown: bool = false;
        let mut i: usize = 0;
        while i < atlas.len()
            invariant
                i <= atlas@.len(),
                hosts@.len() == i,
                forall|j: int|
                    0 <= j < atlas@.len() ==> (#[trigger] atlas@[j]).cpu_cores <= 0x7fff_ffff,
                forall|j: int|
                    #![trigger hosts@[j]]
                    0 <= j < i ==> is_atlas_host(hosts@[j], atlas@[j], self.opts.region@),
                shown == exists|j: int|
                    0 <= j < i && (#[trigger] atlas@[j]).node_id@ == self.me@,
            decreases atlas@.len() - i,
        {
            let a = &atlas[i];
            let cores: u32 = if a.cpu_cores == 0 {
                1
            } else {
                a.cpu_cores
            };
            let budget: u32 = cores * 2;
            hosts.push(
                HostNode {
                    node_id: a.node_id.clone(),
                    source: CapacitySource::Donated,
                    cores: a.cpu_cores,
                    mem_mb: a.mem_mb as u64,
                    region: RegionHint(self.opts.region.clone()),
                    cells: a.running_jobs,
                    cell_budget: budget,
                    load_permille: fill_of(a.running_jobs as u64, budget as u64),
                    price_per_min: 0,
                    last_seen: a.last_seen_secs,
                },
            );
            if same_text(a.node_id.as_str(), self.me.as_str()) {
                shown = true;
                assert(atlas@[i as int].node_id@ == self.me@);
            }
            i = i + 1;
        }
        if !shown {
            let local: u32 = self.local.len() as u32;
            hosts.push(
                HostNode {
                    node_id: self.me.clone(),
                    source: CapacitySource::Donated,
                    cores: 2,
                    mem_mb: 4096,
                    region: RegionHint(self.opts.region.clone()),
                    cells: local,
                    cell_budget: self.opts.max_local_cells,
                    load_permille: fill_of(local as u64, self.opts.max_local_cells as u64),
                    price_per_min: 0,
                    last_seen: 0,
                },
            );
        }
        Fleet { hosts, cell_boot: self.opts.cell_image.clone() }
    }

    /// A commit was heard. This node's own are passed over.
    pub fn on_commit(&mut self, c: &ShapeCommit) -> (effects: Vec<Effect>)
        requires
            old(self).wf(),
            reshapes_cells(c.op),
        ensures
            final(self).wf(),
            if c.controller@ == old(self).me@ {
                *final(self) == *old(self) && effects@.len() == 0
            } else {
                followed(*old(self), *final(self), effects@, *c)
            },
    {
        if same_text(c.controller.as_str(), self.me.as_str()) {
            Vec::new()
        } else {
            self.apply_remote_commit(c)
        }
    }

    /// A heartbeat was heard. This node's own are passed over.
    pub fn on_heartbeat(&mut self, hb: Heartbeat)
        requires
            old(self).wf(),
        ensures
            final(self).wf(),
            if hb.node@ == old(self).me@ {
                *final(self) == *old(self)
            } else {
                &&& final(self).control.live@ == old(self).control.live@.insert(hb.node@, hb)
                &&& *final(self) == (Node { control: final(self).control, ..*old(self) })
            },
    {
        if !same_text(hb.node.as_str(), self.me.as_str()) {
            self.control.observe(hb);
        }
    }

    /// A load was heard. This node's own are passed over.
    pub fn on_load(&mut self, f: LoadFrame)
        requires
            old(self).wf(),
        ensures
            final(self).wf(),
            if f.host@ == old(self).me@ {
                *final(self) == *old(self)
            } else {
                &&& final(self).loads@ == old(self).loads@.insert(f.cell, f.load)
                &&& *final(self) == (Node { loads: final(self).loads, ..*old(self) })
            },
    {
        if !same_text(f.host.as_str(), self.me.as_str()) {
            let _ = self.loads.insert(f.cell, f.load);
        }
    }
}

/// The loads of a map once the first `n` frames are taken in.
pub open spec fn loads_taken(
    loads: Map<CellId, CellLoad>,
    seen: Seq<LoadFrame>,
    n: nat,
) -> Map<CellId, CellLoad>
    decreases n,
{
    if n == 0 {
        loads
    } else {
        loads_taken(loads, seen, (n - 1) as nat).insert(seen[n - 1].cell, seen[n - 1].load)
    }
}

/// The hosts of a map once the first `n` frames are taken in.
pub open spec fn hosts_taken(
    hosts: Map<CellId, String>,
    seen: Seq<LoadFrame>,
    n: nat,
) -> Map<CellId, String>
    decreases n,
{
    if n == 0 {
        hosts
    } else {
        hosts_taken(hosts, seen, (n - 1) as nat).insert(seen[n - 1].cell, seen[n - 1].host)
    }
}

proof fn lemma_all_stopped(h: Hosting, cells: Seq<CellId>, n: nat)
    requires
        n <= cells.len(),
    ensures
        forall|c: CellId| #[trigger]
            all_stopped(h, cells, n).local.contains(c) ==> h.local.contains(c),
        forall|i: int|
            0 <= i < n ==> !all_stopped(h, cells, n).local.contains(#[trigger] cells[i]),
    decreases n,
{
    if n > 0 {
        lemma_all_stopped(h, cells, (n - 1) as nat);
        let before = all_stopped(h, cells, (n - 1) as nat);
        assert forall|c: CellId| #[trigger]
            all_stopped(h, cells, n).local.contains(c) implies h.local.contains(c) by {
            assert(before.local.contains(c));
        }
    }
}

/// The cells that an action names are cells of the plane.
spec fn view_names_cells(a: ActionView) -> bool {
    match a {
        ActionView::Split { cell, place_on } => cell.valid(),
        ActionView::Merge { parent, place_on } => parent.valid(),
        _ => true,
    }
}

proof fn lemma_leaf_actions_name_cells(
    o: Observed,
    dwell: Map<CellId, crate::autoscale::Dwell>,
    leaves: Seq<CellId>,
    n: nat,
)
    requires
        n <= leaves.len(),
        forall|i: int| 0 <= i < leaves.len() ==> (#[trigger] leaves[i]).valid(),
    ensures
        forall|i: int|
            0 <= i < leaf_actions(o, dwell, leaves, n).len() ==> view_names_cells(
                #[trigger] leaf_actions(o, dwell, leaves, n)[i],
            ),
    decreases n,
{
    if n > 0 {
        lemma_leaf_actions_name_cells(o, dwell, leaves, (n - 1) as nat);
        let leaf = leaves[n - 1];
        assert(leaf.valid());
        if parent_of(leaf) is Some {
            crate::galaxy::law_parent_children(leaf);
        }
        let done = leaf_actions(o, dwell, leaves, (n - 1) as nat);
        let all = leaf_actions(o, dwell, leaves, n);
        assert forall|i: int| 0 <= i < all.len() implies view_names_cells(#[trigger] all[i]) by {
            if i < done.len() {
                assert(all[i] == done[i]);
            } else {
                let v = leaf_verdict(o, leaf)->0;
                assert(all[i] == leaf_action(o, leaf, v)[i - done.len()]);
            }
        }
    }
}

proof fn lemma_within_names_cells(actions: Seq<ActionView>, most: nat)
    requires
        forall|i: int| 0 <= i < actions.len() ==> view_names_cells(#[trigger] actions[i]),
    ensures
        forall|i: int|
            0 <= i < within(actions, most).len() ==> view_names_cells(
                #[trigger] within(actions, most)[i],
            ),
    decreases actions.len(),
{
    if actions.len() > 0 {
        let rest = actions.drop_last();
        assert forall|i: int| 0 <= i < rest.len() implies view_names_cells(#[trigger] rest[i]) by {
            assert(view_names_cells(actions[i]));
        }
        lemma_within_names_cells(rest, most);
        let done = within(rest, most);
        let all = within(actions, most);
        assert(view_names_cells(actions[actions.len() - 1]));
        assert forall|i: int| 0 <= i < all.len() implies view_names_cells(#[trigger] all[i]) by {
            if i < done.len() {
                assert(all[i] == done[i]);
            }
        }
    }
}

proof fn lemma_bursts_name_cells(
    regions: Seq<Seq<char>>,
    n: nat,
    cooldown: Map<Seq<char>, u64>,
    epoch: u64,
    policy: AutoscalePolicy,
    most: nat,
)
    ensures
        forall|i: int|
            0 <= i < burst_actions(regions, n, cooldown, epoch, policy, most).len()
                ==> view_names_cells(
                #[trigger] burst_actions(regions, n, cooldown, epoch, policy, most)[i],
            ),
    decreases n,
{
    if n > 0 {
        lemma_bursts_name_cells(regions, (n - 1) as nat, cooldown, epoch, policy, most);
        let done = burst_actions(regions, (n - 1) as nat, cooldown, epoch, policy, most);
        let all = burst_actions(regions, n, cooldown, epoch, policy, most);
        assert forall|i: int| 0 <= i < all.len() implies view_names_cells(#[trigger] all[i]) by {
            if i < done.len() {
                assert(all[i] == done[i]);
            }
        }
    }
}

proof fn lemma_names_cells(
    before: Autoscaler,
    after: Autoscaler,
    actions: Seq<ScaleAction>,
    epoch: u64,
    leaves: Seq<CellId>,
    o: Observed,
)
    requires
        decided(before, after, actions, epoch, leaves, o),
        forall|i: int| 0 <= i < leaves.len() ==> (#[trigger] leaves[i]).valid(),
    ensures
        forall|i: int| 0 <= i < actions.len() ==> names_cells(#[trigger] actions[i]),
{
    let regions = choose|regions: Seq<Seq<char>>| #[trigger]
        are_tight_regions(regions, o.hosts, before.policy.burst_below_permille) && outcome(
            o,
            before.dwell@,
            leaves,
            regions,
            before.burst_cooldown@,
            epoch,
            before.policy,
        ) == (action_views(actions), after.burst_cooldown@);
    let most = before.policy.max_burst_per_pass as nat;
    let wanted = leaf_actions(o, before.dwell@, leaves, leaves.len());
    let by_leaf = within(wanted, most);
    let left = (most - nodes_asked(by_leaf)) as nat;
    let fleet_wide = elasticity(
        o.hosts,
        regions,
        before.burst_cooldown@,
        epoch,
        before.policy,
        left,
    ).0;
    lemma_leaf_actions_name_cells(o, before.dwell@, leaves, leaves.len());
    lemma_within_names_cells(wanted, most);
    lemma_bursts_name_cells(
        regions,
        regions.len(),
        before.burst_cooldown@,
        epoch,
        before.policy,
        left,
    );
    assert(action_views(actions) == by_leaf + fleet_wide);
    assert(action_views(actions).len() == actions.len());
    assert forall|i: int| 0 <= i < fleet_wide.len() implies view_names_cells(
        #[trigger] fleet_wide[i],
    ) by {
        if fleet_wide == retire_actions(o.hosts) {
            assert(fleet_wide[i] is Retire);
        }
    }
    assert forall|i: int| 0 <= i < actions.len() implies names_cells(#[trigger] actions[i]) by {
        assert(action_views(actions)[i] == actions[i]@);
        assert(view_names_cells(actions[i]@)) by {
            if i < by_leaf.len() {
                assert(actions[i]@ == by_leaf[i]);
            } else {
                assert(actions[i]@ == fleet_wide[i - by_leaf.len()]);
            }
        }
    }
}

proof fn lemma_split_stays_valid(leaves: Set<CellId>, c: CellId)
    requires
        c.valid(),
        forall|l: CellId| leaves.contains(l) ==> #[trigger] l.valid(),
    ensures
        forall|l: CellId| split_shape(leaves, c).contains(l) ==> #[trigger] l.valid(),
{
    lemma_valid_divides(c);
    crate::galaxy::law_children_parent(c);
    assert forall|l: CellId| split_shape(leaves, c).contains(l) implies #[trigger] l.valid() by {
        if children_of(c).contains(l) {
            let i = choose|i: int| 0 <= i < children_of(c).len() && children_of(c)[i] == l;
            assert(children_of(c)[i].valid());
        }
    }
}

proof fn lemma_split_op(op: ShapeOp, a: ActionView)
    requires
        op is Split,
        a is Split,
        op->Split_cell == a->Split_cell,
        op->Split_children@ =~= children_of(a->Split_cell),
        ids(op->Split_place_on@) =~= a->Split_place_on,
        op->Split_from_snapshot@ =~= Seq::<char>::empty(),
    ensures
        op@ == (OpView::Split {
            cell: a->Split_cell,
            children: children_of(a->Split_cell),
            place_on: a->Split_place_on,
            from_snapshot: Seq::<char>::empty(),
        }),
{
    assert(views(op->Split_place_on@) =~= ids(op->Split_place_on@));
}

/// A node that carries an action out and a node that applies the commit announced for it end up with
/// the same galaxy, if they started with the same one, and with the same head.
pub proof fn law_followers_converge(
    a: Node,
    a_after: Node,
    a_effects: Seq<Effect>,
    action: ScaleAction,
    accepted: Seq<bool>,
    b: Node,
    b_after: Node,
    b_effects: Seq<Effect>,
    commit: ShapeCommit,
)
    requires
        carried_out(a, a_after, a_effects, action, accepted),
        op_of(a, action@) is Some,
        commit@ == commit_of(a, op_of(a, action@)->0),
        followed(b, b_after, b_effects, commit),
        a.galaxy@ == b.galaxy@,
    ensures
        a_after.galaxy@ == b_after.galaxy@,
        a_after.head@ == b_after.head@,
        views(a_effects).contains(EffectView::Announce { commit: commit@ }),
{
    let op = op_of(a, action@)->0;
    assert(commit.op@ == op);
    let h = announced(rehomed(a, action@, accepted), commit_of(a, op));
    assert(h.effects.last() == EffectView::Announce { commit: commit@ });
    assert(views(a_effects) == h.effects);
    assert(h.effects[h.effects.len() - 1] == h.effects.last());
}

/// What a bystander gathers of the galaxy from the gossip.
pub struct GalaxyWatch {
    pub galaxy: Galaxy,
    pub control: ControlView,
    pub map: MapModel,
}

impl GalaxyWatch {
    pub open spec fn wf(&self) -> bool {
        self.galaxy.wf() && self.control.wf() && self.map.wf()
    }

    /// A bystander who has heard nothing yet.
    pub fn new() -> (w: Self)
        ensures
            w.wf(),
            w.galaxy@ == set![root_cell()],
            w.control.live@ == Map::<Seq<char>, Heartbeat>::empty(),
            w.map.galaxy@ == set![root_cell()],
            w.map.hosts@ == Map::<CellId, String>::empty(),
            w.map.loads@ == Map::<CellId, CellLoad>::empty(),
    {
        GalaxyWatch {
            galaxy: Galaxy::genesis(),
            control: ControlView::new(),
            map: MapModel::new(),
        }
    }

    /// A commit was heard.
    pub fn on_commit(&mut self, c: &ShapeCommit)
        requires
            old(self).wf(),
            reshapes_cells(c.op),
        ensures
            final(self).wf(),
            final(self).control == old(self).control,
            shaped(old(self).map, final(self).map, c.epoch, c.op),
            final(self).galaxy@ == (match c.op {
                ShapeOp::Split { cell, children, place_on, from_snapshot } => split_shape(
                    old(self).galaxy@,
                    cell,
                ),
                ShapeOp::Merge { parent, from_snapshots, place_on } => merge_shape(
                    old(self).galaxy@,
                    parent,
                ),
                _ => old(self).galaxy@,
            }),
    {
        match &c.op {
            ShapeOp::Split { cell, children, place_on, from_snapshot } => {
                proof {
                    lemma_valid_divides(*cell);
                }
                self.galaxy.split(*cell);
            },
            ShapeOp::Merge { parent, from_snapshots, place_on } => {
                proof {
                    lemma_valid_divides(*parent);
                }
                self.galaxy.merge(*parent);
            },
            ShapeOp::Place { cell, node, from_snapshot } => {},
            ShapeOp::Migrate { cell, from, to, snapshot } => {},
        }
        self.map.on_shape(c.epoch, &c.op);
    }

    /// A heartbeat was heard.
    pub fn on_heartbeat(&mut self, hb: Heartbeat)
        requires
            old(self).wf(),
        ensures
            final(self).wf(),
            final(self).galaxy == old(self).galaxy,
            final(self).map == old(self).map,
            final(self).control.live@ == old(self).control.live@.insert(hb.node@, hb),
    {
        self.control.observe(hb);
    }

    /// A load was heard.
    pub fn on_load(&mut self, f: LoadFrame)
        requires
            old(self).wf(),
        ensures
            final(self).wf(),
            final(self).galaxy == old(self).galaxy,
            final(self).control == old(self).control,
            final(self).map.hosts@ == old(self).map.hosts@.insert(f.cell, f.host),
            final(self).map.loads@ == old(self).map.loads@.insert(f.cell, f.load),
            final(self).map.galaxy == old(self).map.galaxy,
            final(self).map.events == old(self).map.events,
    {
        self.map.on_load(f);
    }
}

/// The gateway of another node.
pub open spec fn other_gateway(me: Seq<char>) -> spec_fn(Heartbeat) -> bool {
    |hb: Heartbeat| hb.gateway && hb.node@ != me
}

/// The entry of another gateway, as its heartbeat has it.
pub open spec fn is_entry_of(g: Gateway, hb: Heartbeat) -> bool {
    &&& g.node_id == hb.node
    &&& g.region@ == hb.region@
    &&& g.endpoints@.len() == 0
    &&& g.sessions == 0
    &&& g.session_budget == 1000 * (if hb.free_cell_slots == 0 {
        1
    } else {
        hb.free_cell_slots as int
    })
    &&& g.load_permille == hb.load_permille
    &&& g.last_seen == hb.epoch
}

/// The directory that this node serves to browsers: itself first, then the other gateways by id.
pub fn gateway_directory(
    me: &str,
    region: &str,
    control: &ControlView,
    public_endpoint: &str,
) -> (d: GatewayDirectory)
    requires
        control.wf(),
        forall|n: Seq<char>| #[trigger]
            control.live@.contains_key(n) ==> control.live@[n].free_cell_slots <= 4_294_967,
    ensures
        d.gateways@.len() > 0,
        d.gateways@[0].node_id@ == me@,
        d.gateways@[0].region@ == region@,
        views(d.gateways@[0].endpoints@) == seq![public_endpoint@],
        d.gateways@[0].sessions == 0,
        d.gateways@[0].session_budget == 10_000,
        d.gateways@[0].load_permille == 0,
        d.gateways@[0].last_seen == 0,
        ({
            let others = control.live.value_order().filter(other_gateway(me@));
            &&& d.gateways@.len() == others.len() + 1
            &&& forall|i: int|
                0 <= i < others.len() ==> is_entry_of(d.gateways@[i + 1], #[trigger] others[i])
        }),
{
    let mut endpoints: Vec<String> = Vec::new();
    endpoints.push(public_endpoint.to_string());
    assert(views(endpoints@) =~= seq![public_endpoint@]);
    let own = Gateway {
        node_id: me.to_string(),
        region: RegionHint(region.to_string()),
        endpoints,
        sessions: 0,
        session_budget: 10_000,
        load_permille: 0,
        last_seen: 0,
    };
    let mut gateways: Vec<Gateway> = Vec::new();
    gateways.push(own);
    let heard = control.live.values();
    let ghost all = heard@;
    let ghost p = other_gateway(me@);
    proof {
        control.live.lemma_orders();
        reveal(Seq::filter);
        assert(all.subrange(0, 0) =~= Seq::<Heartbeat>::empty());
        assert forall|i: int| 0 <= i < all.len() implies (#[trigger] all[i]).free_cell_slots
            <= 4_294_967 by {
            assert(control.live@.contains_pair(control.live.key_order()[i]@, all[i]));
        }
    }
    let mut i: usize = 0;
    while i < heard.len()
        invariant
            i <= all.len(),
            all == heard@,
            p == other_gateway(me@),
            forall|j: int| 0 <= j < all.len() ==> (#[trigger] all[j]).free_cell_slots <= 4_294_967,
            gateways@.len() == all.subrange(0, i as int).filter(p).len() + 1,
            gateways@[0] == own,
            forall|j: int|
                0 <= j < all.subrange(0, i as int).filter(p).len() ==> is_entry_of(
                    gateways@[j + 1],
                    #[trigger] all.subrange(0, i as int).filter(p)[j],
                ),
        decreases all.len() - i,
    {
        let hb = &heard[i];
        let ghost seen = all.subrange(0, i as int);
        proof {
            assert(all.subrange(0, i + 1) =~= seen.push(*hb));
            lemma_filter_push(seen, *hb, p);
        }
        if hb.gateway && !same_text(hb.node.as_str(), me) {
            let slots: u32 = if hb.free_cell_slots == 0 {
                1
            } else {
                hb.free_cell_slots
            };
            assert(all[i as int].free_cell_slots <= 4_294_967);
            gateways.push(
                Gateway {
                    node_id: hb.node.clone(),
                    region: RegionHint(hb.region.clone()),
                    endpoints: Vec::new(),
                    sessions: 0,
                    session_budget: slots * 1000,
                    load_permille: hb.load_permille,
                    last_seen: hb.epoch,
                },
            );
        }
        i = i + 1;
    }
    assert(all.subrange(0, i as int) =~= all);
    GatewayDirectory { gateways }
}

/// The loop around a node: it listens to the mesh, opens the stream again when it is lost, and makes a
/// pass in every epoch.
pub struct NodeLoop {
    pub node: Node,
    pub backoff: Backoff,
}

impl NodeLoop {
    pub open spec fn wf(&self) -> bool {
        self.node.wf() && self.backoff.wf()
    }

    /// The loop around a node that has just started, and what there is to do at once.
    pub fn start(me: NodeId, opts: NodeOpts) -> (r: (NodeLoop, Vec<Effect>))
        ensures
            r.0.wf(),
            has_started(r.0.node, r.1@, me, opts),
            r.0.backoff.wait_ms == BACKOFF_START_MS,
    {
        let (node, effects): (Node, Vec<Effect>) = Node::start(me, opts);
        (NodeLoop { node, backoff: Backoff::new() }, effects)
    }

    /// The seconds between two passes, at least one.
    pub fn epoch_secs(&self) -> (s: u64)
        ensures
            s == (if self.node.opts.epoch_secs == 0 {
                1
            } else {
                self.node.opts.epoch_secs
            }),
    {
        if self.node.opts.epoch_secs == 0 {
            1
        } else {
            self.node.opts.epoch_secs
        }
    }

    /// The stream did not open: how long to wait before the next attempt.
    pub fn on_open_failed(&mut self) -> (wait_ms: u64)
        requires
            old(self).wf(),
        ensures
            final(self).wf(),
            wait_ms == old(self).backoff.wait_ms,
            *final(self) == (NodeLoop {
                backoff: (Backoff { wait_ms: longer_wait(old(self).backoff.wait_ms) }),
                ..*old(self)
            }),
    {
        self.backoff.on_open_failed()
    }

    /// The stream is open: the next failure is the first again.
    pub fn on_opened(&mut self)
        requires
            old(self).wf(),
        ensures
            final(self).wf(),
            *final(self) == (NodeLoop {
                backoff: (Backoff { wait_ms: BACKOFF_START_MS }),
                ..*old(self)
            }),
    {
        self.backoff.on_opened();
    }
}

/// A cell is started once and stopped once: what runs is not started again, what does not run is not stopped, and each start and each stop is asked
/// for at the end of what is to be done. A cell that is stopped is no longer known to be loaded.
pub proof fn law_cells_start_and_stop_once(h: Hosting, cell: CellId, other: CellId)
    requires
        other != cell,
    ensures
        h.local.contains(cell) ==> started(h, cell) == h,
        !h.local.contains(cell) ==> {
            &&& started(h, cell).local.contains(cell)
            &&& started(h, cell).effects.len() == h.effects.len() + 1
            &&& started(h, cell).effects.drop_last() == h.effects
            &&& started(h, cell).effects.last() matches EffectView::Start { cell: c, token } && c == cell
                && token == play_token_of(cell)
            &&& started(h, cell).loads == h.loads
        },
        !h.local.contains(cell) ==> stopped(h, cell) == h,
        h.local.contains(cell) ==> {
            &&& !stopped(h, cell).local.contains(cell)
            &&& !stopped(h, cell).loads.contains_key(cell)
            &&& stopped(h, cell).effects.len() == h.effects.len() + 1
            &&& stopped(h, cell).effects.drop_last() == h.effects
            &&& stopped(h, cell).effects.last() == (EffectView::Stop { cell })
        },
        started(h, cell).local.contains(other) <==> h.local.contains(other),
        stopped(h, cell).local.contains(other) <==> h.local.contains(other),
{
    if !h.local.contains(cell) {
        assert(started(h, cell).effects.drop_last() =~= h.effects);
    } else {
        assert(stopped(h, cell).effects.drop_last() =~= h.effects);
    }
}

/// The cell at a place among some falls to this node.
pub open spec fn takes_one(cells: Seq<CellId>, here: spec_fn(int) -> bool, n: nat, c: CellId) -> bool {
    exists|i: int| 0 <= i < n && here(i) && #[trigger] cells[i] == c
}

proof fn lemma_seated(h: Hosting, cells: Seq<CellId>, here: spec_fn(int) -> bool, n: nat, c: CellId)
    requires
        n <= cells.len(),
    ensures
        seated(h, cells, here, n).local.contains(c) <==> h.local.contains(c) || takes_one(
            cells,
            here,
            n,
            c,
        ),
    decreases n,
{
    if n > 0 {
        lemma_seated(h, cells, here, (n - 1) as nat, c);
        if takes_one(cells, here, (n - 1) as nat, c) {
            let i = choose|i: int| 0 <= i < n - 1 && here(i) && #[trigger] cells[i] == c;
            assert(0 <= i < n && here(i) && cells[i] == c);
        }
        if here(n - 1) && cells[n - 1] == c {
            assert(takes_one(cells, here, n, c));
        }
        if takes_one(cells, here, n, c) {
            let i = choose|i: int| 0 <= i < n && here(i) && #[trigger] cells[i] == c;
            if i < n - 1 {
                assert(takes_one(cells, here, (n - 1) as nat, c));
            }
        }
    }
}

proof fn lemma_none_left(h: Hosting, cells: Seq<CellId>, n: nat, c: CellId)
    requires
        n <= cells.len(),
    ensures
        all_stopped(h, cells, n).local.contains(c) <==> h.local.contains(c) && !cells.take(
            n as int,
        ).contains(c),
    decreases n,
{
    let part = cells.take(n as int);
    if n > 0 {
        lemma_none_left(h, cells, (n - 1) as nat, c);
        let less = cells.take(n - 1);
        assert(part =~= less.push(cells[n - 1]));
        if less.contains(c) {
            let i = choose|i: int| 0 <= i < less.len() && less[i] == c;
            assert(part[i] == c);
        }
        if cells[n - 1] == c {
            assert(part[n - 1] == c);
        }
        if part.contains(c) {
            let i = choose|i: int| 0 <= i < part.len() && part[i] == c;
            if i < n - 1 {
                assert(less[i] == c);
            }
        }
    }
}

/// A node that follows a commit runs what the commit gives it, gives up what it takes from it, and goes on with everything else. Of a split it runs
/// the children that are placed on it, and no longer the cell; of a merge the parent, if that is placed on it, and no longer the children; what is
/// placed on it it runs, and what moves away it does not.
pub proof fn law_nodes_follow_commits(before: Node, after: Node, effects: Seq<Effect>, c: ShapeCommit, x: CellId)
    requires
        followed(before, after, effects, c),
    ensures
        after.head == c.cid,
        after.me == before.me,
        match c.op {
            ShapeOp::Split { cell, children, place_on, from_snapshot } => after.local@.contains(x) <==> (
            before.local@.contains(x) && x != cell) || exists|i: int|
                0 <= i < 4 && place_on@[i]@ == before.me@ && #[trigger] children@[i] == x,
            ShapeOp::Merge { parent, from_snapshots, place_on } => after.local@.contains(x) <==> (
            before.local@.contains(x) && !children_of(parent).contains(x)) || (x == parent && place_on@
                == before.me@),
            ShapeOp::Place { cell, node, from_snapshot } => after.local@.contains(x) <==> before.local@.contains(
                x,
            ) || (x == cell && node@ == before.me@),
            ShapeOp::Migrate { cell, from, to, snapshot } => after.local@.contains(x) <==> (if x == cell
                && to@ == before.me@ {
                true
            } else if x == cell && from@ == before.me@ {
                false
            } else {
                before.local@.contains(x)
            }),
        },
{
    let h = Hosting { local: before.local@, loads: before.loads@, effects: Seq::empty() };
    let me = before.me@;
    assert(hosting_of(after, effects).local == after.local@);
    match c.op {
        ShapeOp::Split { cell, children, place_on, from_snapshot } => {
            let here = meant_for(me, views(place_on@));
            lemma_seated(stopped(h, cell), children@, here, 4, x);
            if takes_one(children@, here, 4, x) {
                let i = choose|i: int| 0 <= i < 4 && here(i) && #[trigger] children@[i] == x;
                assert(views(place_on@)[i] == place_on@[i]@);
                assert(place_on@[i]@ == me && children@[i] == x);
            }
            if exists|i: int| 0 <= i < 4 && place_on@[i]@ == me && #[trigger] children@[i] == x {
                let i = choose|i: int|
                    0 <= i < 4 && place_on@[i]@ == me && #[trigger] children@[i] == x;
                assert(views(place_on@)[i] == place_on@[i]@);
                assert(here(i) && children@[i] == x);
            }
        },
        ShapeOp::Merge { parent, from_snapshots, place_on } => {
            let kids = children_of(parent);
            lemma_none_left(h, kids, kids.len(), x);
            assert(kids.take(kids.len() as int) =~= kids);
        },
        ShapeOp::Place { cell, node, from_snapshot } => {},
        ShapeOp::Migrate { cell, from, to, snapshot } => {},
    }
}

/// A node that splits a cell gives the cell up and runs the quarters that are placed on it, and those that the others did not take; one that merges
/// gives up the children and runs the parent, if that is placed on it; and it tells the others, after all that, in a commit that builds on its last.
pub proof fn law_actions_are_carried_out(
    before: Node,
    after: Node,
    effects: Seq<Effect>,
    a: ScaleAction,
    accepted: Seq<bool>,
    x: CellId,
)
    requires
        carried_out(before, after, effects, a, accepted),
        op_of(before, a@) is Some,
        a matches ScaleAction::Split { cell, place_on } ==> cell.depth < 30,
    ensures
        match a@ {
            ActionView::Split { cell, place_on } => after.local@.contains(x) <==> x != cell && (
            before.local@.contains(x) || exists|i: int|
                0 <= i < 4 && (place_on[i] == before.me@ || !accepted[i]) && #[trigger] children_of(cell)[i]
                    == x),
            ActionView::Merge { parent, place_on } => after.local@.contains(x) <==> (before.local@.contains(
                x,
            ) && !children_of(parent).contains(x)) || (x == parent && place_on == before.me@),
            ActionView::Place { cell, node } => after.local@.contains(x) <==> before.local@.contains(x) || (x
                == cell && (node == before.me@ || !accepted[0])),
            _ => after.local@ == before.local@,
        },
        effects.len() > 0,
        effects.last()@ matches EffectView::Announce { commit } && commit.prev == before.head@
            && commit.controller == before.me@ && commit.epoch == before.epoch && commit.cid == after.head@,
{
    let h = Hosting { local: before.local@, loads: before.loads@, effects: Seq::empty() };
    let me = before.me@;
    let op = op_of(before, a@)->0;
    let done = rehomed(before, a@, accepted);
    assert(hosting_of(after, effects).local == after.local@);
    assert(hosting_of(after, effects).local == done.local);
    assert(views(effects) == done.effects.push(EffectView::Announce { commit: commit_of(before, op) }));
    assert(views(effects).last() == effects.last()@);
    match a@ {
        ActionView::Split { cell, place_on } => {
            let kids = children_of(cell);
            let here = falls_here(me, place_on, accepted);
            assert(kids.len() == 4);
            lemma_seated(h, kids, here, 4, x);
            if takes_one(kids, here, 4, x) {
                let i = choose|i: int| 0 <= i < 4 && here(i) && #[trigger] kids[i] == x;
                assert((place_on[i] == me || !accepted[i]) && kids[i] == x);
            }
            if exists|i: int|
                0 <= i < 4 && (place_on[i] == me || !accepted[i]) && #[trigger] children_of(cell)[i] == x {
                let i = choose|i: int|
                    0 <= i < 4 && (place_on[i] == me || !accepted[i]) && #[trigger] children_of(cell)[i] == x;
                assert(here(i) && kids[i] == x);
            }
        },
        ActionView::Merge { parent, place_on } => {
            let kids = children_of(parent);
            lemma_none_left(h, kids, kids.len(), x);
            assert(kids.take(kids.len() as int) =~= kids);
        },
        _ => {},
    }
}

/// What a node holds back from: a split that would go deeper than it may, or than cells go, or that would put all four quarters on it where it has no
/// room for three more cells. Bursts and retirements are no commits.
pub proof fn law_what_is_held_back(n: Node, cell: CellId, place_on: Seq<Seq<char>>)
    requires
        place_on.len() == 4,
    ensures
        cell.depth >= n.opts.max_depth || cell.depth >= 30 ==> op_of(
            n,
            ActionView::Split { cell, place_on },
        ) is None,
        cell.depth < n.opts.max_depth && cell.depth < 30 && place_on[0] != n.me@ ==> op_of(
            n,
            ActionView::Split { cell, place_on },
        ) is Some,
        cell.depth < n.opts.max_depth && cell.depth < 30 && place_on[0] == n.me@ && place_on[1] == n.me@
            && place_on[2] == n.me@ && place_on[3] == n.me@ ==> (op_of(
            n,
            ActionView::Split { cell, place_on },
        ) is None <==> n.local@.len() + 3 > n.opts.max_local_cells),
        op_of(n, ActionView::Split { cell, place_on }) matches Some(op) ==> (op matches OpView::Split {
            cell: c,
            children,
            place_on: p,
            from_snapshot,
        } && c == cell && children == children_of(cell) && p == place_on),
{
    if place_on[0] != n.me@ {
        assert(!(forall|i: int| 0 <= i < 4 ==> #[trigger] place_on[i] == n.me@));
    }
}

/// What an action becomes in a commit: the same cell, on the same nodes.
pub proof fn law_commits_say_what_is_done(n: Node, parent: CellId, a: Seq<char>, b: Seq<char>)
    ensures
        op_of(n, ActionView::Merge { parent, place_on: a }) matches Some(OpView::Merge {
            parent: p,
            from_snapshots,
            place_on,
        }) && p == parent && place_on == a,
        op_of(n, ActionView::Migrate { cell: parent, from: a, to: b }) matches Some(OpView::Migrate {
            cell,
            from,
            to,
            snapshot,
        }) && cell == parent && from == a && to == b,
        op_of(n, ActionView::Place { cell: parent, node: a }) matches Some(OpView::Place {
            cell,
            node,
            from_snapshot,
        }) && cell == parent && node == a,
        op_of(n, ActionView::Retire { node: a }) is None,
        op_of(n, ActionView::Burst { count: 1, region: a }) is None,
{
}

/// How full a node is: by the thousandth below, full where it has no budget or has used it up.
pub proof fn law_how_full(cells: int, budget: int)
    requires
        0 <= cells,
    ensures
        budget <= 0 || cells >= budget ==> fill_permille(cells, budget) == 1000,
        0 <= cells < budget ==> fill_permille(cells, budget) * budget <= 1000 * cells < (fill_permille(
            cells,
            budget,
        ) + 1) * budget,
        cells == 0 && budget > 0 ==> fill_permille(cells, budget) == 0,
{
    if 0 <= cells < budget {
        let a = cells * 1000;
        vstd::arithmetic::div_mod::lemma_fundamental_div_mod(a, budget);
        vstd::arithmetic::div_mod::lemma_mod_bound(a, budget);
        let q = a / budget;
        assert(q * budget == budget * q && (q + 1) * budget == budget * q + budget) by (nonlinear_arith);
    }
}

/// A node of the atlas runs two cells for each core, at least two; it is donated and costs nothing.
pub proof fn law_hosts_of_the_atlas(h: HostNode, a: AtlasEntry, region: Seq<char>)
    requires
        is_atlas_host(h, a, region),
        a.cpu_cores <= 0x7fff_ffff,
    ensures
        h.node_id == a.node_id && h.region@ == region && h.cells == a.running_jobs,
        h.cell_budget >= 2,
        a.cpu_cores > 0 ==> h.cell_budget == a.cpu_cores + a.cpu_cores,
        h.source is Donated && h.price_per_min == 0,
        a.running_jobs >= h.cell_budget ==> h.load_permille == 1000,
{
}

/// A node votes where it hears of others: it is one of the voters, and so is everybody that it has heard.
pub proof fn law_everybody_votes(heard: Seq<Seq<char>>, me: Seq<char>, i: int)
    ensures
        voters(heard, me).contains(me),
        0 <= i < heard.len() ==> voters(heard, me).contains(heard[i]),
        heard.contains(me) ==> voters(heard, me) == heard,
        !heard.contains(me) ==> voters(heard, me).len() == heard.len() + 1,
{
    let v = voters(heard, me);
    if !heard.contains(me) {
        assert(v[heard.len() as int] == me);
    }
    if 0 <= i < heard.len() {
        assert(v[i] == heard[i]);
    }
}

/// The last load that is heard of a cell counts, and who runs it is who told.
pub proof fn law_last_load_counts(
    loads: Map<CellId, CellLoad>,
    hosts: Map<CellId, String>,
    seen: Seq<LoadFrame>,
    n: nat,
    other: CellId,
)
    requires
        n < seen.len(),
        other != seen[n as int].cell,
    ensures
        loads_taken(loads, seen, n + 1).contains_pair(seen[n as int].cell, seen[n as int].load),
        hosts_taken(hosts, seen, n + 1).contains_pair(seen[n as int].cell, seen[n as int].host),
        loads_taken(loads, seen, n + 1).contains_key(other) <==> loads_taken(loads, seen, n).contains_key(
            other,
        ),
        loads_taken(loads, seen, n).contains_key(other) ==> loads_taken(loads, seen, n + 1)[other]
            == loads_taken(loads, seen, n)[other],
        hosts_taken(hosts, seen, n).contains_key(other) ==> hosts_taken(hosts, seen, n + 1)[other]
            == hosts_taken(hosts, seen, n)[other],
{
}

/// A gateway that was heard of is listed with a thousand sessions for each free cell, and at least a thousand.
pub proof fn law_gateways_are_listed(g: Gateway, hb: Heartbeat)
    requires
        is_entry_of(g, hb),
    ensures
        g.node_id == hb.node && g.region@ == hb.region@ && g.load_permille == hb.load_permille,
        g.session_budget >= 1000,
        hb.free_cell_slots > 0 ==> g.session_budget == 1000 * hb.free_cell_slots,
        g.sessions == 0 && g.last_seen == hb.epoch,
{
}

/// The root cell is played under the name of the first sector, every other cell under its own.
pub proof fn law_play_tokens(cell: CellId)
    ensures
        cell.depth == 0 && cell.x == 0 && cell.y == 0 ==> play_token_of(cell) == "0_0"@,
        !(cell.depth == 0 && cell.x == 0 && cell.y == 0) ==> play_token_of(cell) == token_of(cell),
{
}

} // verus!
