//! Replicas: the unit that every player's node runs, so that the players of a region are its servers.
//!
//! What a replica computes depends on the inputs and the ticks at which they apply, never on the order
//! in which they arrived or on the node that runs it. A host keeps one replica warm for every sector
//! that its player's interest touches, and ships slide from one to the next.
use vstd::prelude::*;
use vstd::string::*;

use crate::domain::{
    anchor_of_tally, covers_owners, grown, half_of_tally, has_domain, in_world, is_domain, joined, lemma_named_where,
    point_box, sectors_of, ship_spots, tally_of, DomainField,
};
use crate::galaxy::World;
use crate::order::{ascending, views, SortedMap, SortedSet};
use crate::room::{applied, apply_client_msg, build_snapshot};
use crate::shard::{sector_token, SectorId};
use crate::sim::{fresh_sector, hash_words, sim_words, with_ship, Ship, ShipModel, Sim, SimModel, Transit, TransitView};
use crate::sort::{ranks_by_view, sort_stably, stably_sorted, tied, Ranked};
use crate::text::{lemma_text_order, same_text, text_below, text_less};
use crate::wire::topics::service_name;
use crate::wire::{ClientMsg, MsgView, Snapshot};

verus! {

/// Ticks between an input and its effect, for it to reach every replica in time.
pub const INPUT_DELAY: u64 = 6;

/// The most ticks that are caught up after a stall.
pub const MAX_CATCHUP: u64 = 12;

/// The time from which ticks are counted, in milliseconds since 1970.
pub const TICK_EPOCH_MS: u64 = 1_700_000_000_000;

/// The tick at a time: sixty in a second, and none before the epoch.
pub open spec fn tick_of(now_ms: u64) -> int {
    if now_ms < TICK_EPOCH_MS {
        0
    } else {
        (now_ms - TICK_EPOCH_MS) * 60 / 1000
    }
}

pub fn tick_at(now_ms: u64) -> (t: u64)
    ensures
        t == tick_of(now_ms),
{
    if now_ms < TICK_EPOCH_MS {
        0
    } else {
        ((now_ms - TICK_EPOCH_MS) as u128 * 60 / 1000) as u64
    }
}

/// An input and the tick at which it applies on every replica.
#[derive(Debug, PartialEq)]
pub struct TickInput {
    pub tick: u64,
    pub player: String,
    /// The author's own count, which orders their inputs within a tick.
    pub seq: u64,
    pub msg: ClientMsg,
}

impl Clone for TickInput {
    fn clone(&self) -> (r: Self)
        ensures
            r == *self,
    {
        TickInput {
            tick: self.tick,
            player: self.player.clone(),
            seq: self.seq,
            msg: self.msg.clone(),
        }
    }
}

/// An input that waits for its tick.
#[derive(Debug, PartialEq)]
pub struct Pending {
    pub player: String,
    pub seq: u64,
    pub msg: ClientMsg,
}

pub struct PendingView {
    pub player: Seq<char>,
    pub seq: u64,
    pub msg: MsgView,
}

impl View for Pending {
    type V = PendingView;

    open spec fn view(&self) -> PendingView {
        PendingView { player: self.player@, seq: self.seq, msg: self.msg@ }
    }
}

impl Ranked for Pending {
    open spec fn before(&self, other: &Self) -> bool {
        text_below(self.player@, other.player@) || (self.player@ == other.player@ && self.seq
            < other.seq)
    }

    fn goes_before(&self, other: &Self) -> (r: bool) {
        text_less(self.player.as_str(), other.player.as_str()) || (same_text(
            self.player.as_str(),
            other.player.as_str(),
        ) && self.seq < other.seq)
    }

    proof fn before_asymmetric(a: &Self, b: &Self) {
        lemma_text_order(a.player@, b.player@, a.player@);
    }

    proof fn before_negatively_transitive(a: &Self, b: &Self, c: &Self) {
        lemma_text_order(a.player@, b.player@, c.player@);
        lemma_text_order(a.player@, c.player@, b.player@);
        lemma_text_order(b.player@, a.player@, c.player@);
        lemma_text_order(b.player@, c.player@, a.player@);
        lemma_text_order(c.player@, b.player@, a.player@);
        lemma_text_order(c.player@, a.player@, b.player@);
    }
}

/// The inputs that wait for a tick, in the order in which they came.
pub open spec fn inputs_at(scheduled: Map<u64, Vec<Pending>>, tick: u64) -> Seq<Pending> {
    if scheduled.contains_key(tick) {
        scheduled[tick]@
    } else {
        Seq::empty()
    }
}

/// The sector after some inputs, one after the other.
pub open spec fn all_applied(s: SimModel, inputs: Seq<PendingView>) -> SimModel
    decreases inputs.len(),
{
    if inputs.len() == 0 {
        s
    } else {
        let before = all_applied(s, inputs.drop_last());
        applied(before, inputs.last().player, inputs.last().msg)
    }
}

/// The sector after one tick: its inputs in canonical order, by player and then by their count, and
/// then the clock.
pub open spec fn one_tick(s: SimModel, inputs: Seq<Pending>) -> SimModel {
    let acted = all_applied(s, views(stably_sorted(inputs)));
    SimModel { tick: (s.tick + 1) as u64, ..acted }
}

/// The sector once it has reached a tick.
pub open spec fn run_to(
    s: SimModel,
    scheduled: Map<u64, Vec<Pending>>,
    target: u64,
) -> SimModel
    decreases target - s.tick,
{
    if s.tick >= target {
        s
    } else {
        let next = one_tick(s, inputs_at(scheduled, s.tick));
        if next.tick == s.tick + 1 {
            run_to(next, scheduled, target)
        } else {
            next
        }
    }
}

/// The tick at which catching up starts: far behind, the clock is moved on.
pub open spec fn start_of(tick: u64, target: u64) -> u64 {
    if target > tick && target - tick > MAX_CATCHUP {
        (target - MAX_CATCHUP) as u64
    } else {
        tick
    }
}

/// What advancing to a tick makes of a replica: the ticks from the start to the target are
/// simulated, and their inputs are used up.
pub open spec fn is_advanced(before: Replica, after: Replica, target: u64) -> bool {
    let tick = before.sim.tick;
    let start = start_of(tick, target);
    &&& after.sim@ == run_to(
        SimModel { tick: start, ..before.sim@ },
        before.scheduled@,
        target,
    )
    &&& after.sim.tick == (if tick < target {
        target
    } else {
        tick
    })
    &&& after.sim.sector == before.sim.sector
    &&& after.sim.scene == before.sim.scene
    &&& forall|t: u64|
        #![trigger inputs_at(after.scheduled@, t)]
        inputs_at(after.scheduled@, t) == (if start <= t < target || (start != tick && t < start) {
            Seq::empty()
        } else {
            inputs_at(before.scheduled@, t)
        })
}

/// A replica of one sector.
pub struct Replica {
    pub sim: Sim,
    /// The inputs that wait, by their tick.
    pub scheduled: SortedMap<u64, Vec<Pending>>,
}

proof fn lemma_all_applied_keeps_clock(s: SimModel, inputs: Seq<PendingView>)
    ensures
        all_applied(s, inputs).tick == s.tick,
        all_applied(s, inputs).sector == s.sector,
        all_applied(s, inputs).rules == s.rules,
        all_applied(s, inputs).transit_out == s.transit_out,
    decreases inputs.len(),
{
    if inputs.len() > 0 {
        lemma_all_applied_keeps_clock(s, inputs.drop_last());
    }
}

impl Replica {
    pub open spec fn wf(&self) -> bool {
        self.sim.wf() && self.scheduled.wf()
    }

    /// A replica of a sector. Replicas of one region start from the same state.
    pub fn new(sim: Sim) -> (r: Self)
        requires
            sim.wf(),
        ensures
            r.wf(),
            r.sim == sim,
            r.scheduled@ == Map::<u64, Vec<Pending>>::empty(),
    {
        Replica { sim, scheduled: SortedMap::new() }
    }

    /// The next tick to be simulated.
    pub fn tick(&self) -> (t: u64)
        ensures
            t == self.sim.tick,
    {
        self.sim.tick
    }

    /// The state of the sector.
    pub fn sim(&self) -> (s: &Sim)
        ensures
            *s == self.sim,
    {
        &self.sim
    }

    pub fn sector(&self) -> (s: SectorId)
        ensures
            s == self.sim.sector,
    {
        self.sim.sector
    }

    /// The replica's claim about its state.
    pub fn state_hash(&self) -> (h: u64)
        requires
            self.wf(),
        ensures
            h == hash_words(sim_words(self.sim@, views(self.sim.ships.key_order()))),
    {
        self.sim.state_hash()
    }

    /// Takes the ships that have crossed the sector's edge.
    pub fn drain_transits(&mut self) -> (out: Vec<Transit>)
        requires
            old(self).wf(),
        ensures
            final(self).wf(),
            out@ == old(self).sim.transit_out@,
            final(self).sim@ == (SimModel { transit_out: Seq::empty(), ..old(self).sim@ }),
            final(self).sim.scene == old(self).sim.scene,
            final(self).scheduled == old(self).scheduled,
    {
        self.sim.take_transits()
    }

    /// Takes a ship in that comes from a neighbouring sector, with everything it carries.
    pub fn accept_transit(&mut self, id: String, ship: Ship)
        requires
            old(self).wf(),
        ensures
            final(self).wf(),
            final(self).sim@ == with_ship(old(self).sim@, id@, ship@),
            final(self).sim.scene == old(self).sim.scene,
            final(self).scheduled == old(self).scheduled,
    {
        self.sim.accept_transit(id, ship);
    }

    /// Schedules an input. One for a tick that was simulated already comes too late and is refused.
    pub fn schedule(&mut self, input: TickInput) -> (in_time: bool)
        requires
            old(self).wf(),
        ensures
            final(self).wf(),
            final(self).sim == old(self).sim,
            in_time == (input.tick >= old(self).sim.tick),
            forall|t: u64|
                #![trigger inputs_at(final(self).scheduled@, t)]
                inputs_at(final(self).scheduled@, t) == (if in_time && t == input.tick {
                    inputs_at(old(self).scheduled@, t).push(
                        Pending { player: input.player, seq: input.seq, msg: input.msg },
                    )
                } else {
                    inputs_at(old(self).scheduled@, t)
                }),
    {
        if input.tick < self.sim.tick {
            return false;
        }
        let at: u64 = input.tick;
        self.enqueue(
            at,
            Pending { player: input.player, seq: input.seq, msg: input.msg },
        );
        true
    }

    fn enqueue(&mut self, at: u64, p: Pending)
        requires
            old(self).wf(),
        ensures
            final(self).wf(),
            final(self).sim == old(self).sim,
            forall|t: u64|
                #![trigger inputs_at(final(self).scheduled@, t)]
                inputs_at(final(self).scheduled@, t) == (if t == at {
                    inputs_at(old(self).scheduled@, t).push(p)
                } else {
                    inputs_at(old(self).scheduled@, t)
                }),
    {
        let mut list: Vec<Pending> = match self.scheduled.remove(&at) {
            Some(list) => list,
            None => Vec::new(),
        };
        assert(list@ =~= inputs_at(old(self).scheduled@, at));
        list.push(p);
        let _ = self.scheduled.insert(at, list);
    }

    /// Schedules an input of this node a few ticks ahead, and returns its tick for the broadcast.
    pub fn schedule_local(&mut self, player: &str, seq: u64, msg: ClientMsg) -> (at: u64)
        requires
            old(self).wf(),
            old(self).sim.tick <= u64::MAX - INPUT_DELAY,
        ensures
            final(self).wf(),
            final(self).sim == old(self).sim,
            at == old(self).sim.tick + INPUT_DELAY,
            ({
                let (was, now) = (
                    inputs_at(old(self).scheduled@, at),
                    inputs_at(final(self).scheduled@, at),
                );
                &&& now.len() == was.len() + 1
                &&& now.drop_last() == was
                &&& now.last()@ == (PendingView { player: player@, seq, msg: msg@ })
            }),
            forall|t: u64|
                #![trigger inputs_at(final(self).scheduled@, t)]
                t != at ==> inputs_at(final(self).scheduled@, t) == inputs_at(
                    old(self).scheduled@,
                    t,
                ),
    {
        let at: u64 = self.sim.tick + INPUT_DELAY;
        self.enqueue(at, Pending { player: player.to_string(), seq, msg });
        assert(inputs_at(self.scheduled@, at).drop_last() =~= inputs_at(
            old(self).scheduled@,
            at,
        ));
        at
    }

    /// Applies an input of this node at once, for its own ship to answer without delay.
    pub fn apply_local_now(&mut self, player: &str, msg: ClientMsg)
        requires
            old(self).wf(),
        ensures
            final(self).wf(),
            final(self).sim@ == applied(old(self).sim@, player@, msg@),
            final(self).sim.scene == old(self).sim.scene,
            final(self).scheduled == old(self).scheduled,
    {
        let _ = apply_client_msg(&mut self.sim, player, msg);
    }

    /// Moves the clock, at the start or when a snapshot was adopted.
    pub fn set_tick(&mut self, tick: u64)
        requires
            old(self).wf(),
        ensures
            final(self).wf(),
            final(self).sim@ == (SimModel { tick, ..old(self).sim@ }),
            final(self).sim.scene == old(self).sim.scene,
            final(self).scheduled == old(self).scheduled,
    {
        self.sim.tick = tick;
    }

    /// Drops the inputs for ticks before `from`.
    fn forget_before(&mut self, from: u64)
        requires
            old(self).wf(),
        ensures
            final(self).wf(),
            final(self).sim == old(self).sim,
            forall|t: u64|
                #![trigger inputs_at(final(self).scheduled@, t)]
                inputs_at(final(self).scheduled@, t) == (if t < from {
                    Seq::empty()
                } else {
                    inputs_at(old(self).scheduled@, t)
                }),
    {
        let ghost start = self.scheduled@;
        proof {
            self.scheduled.lemma_orders();
        }
        while self.scheduled.len() > 0 && self.scheduled.keys()[0] < from
            invariant
                self.wf(),
                self.sim == old(self).sim,
                forall|t: u64| #[trigger]
                    self.scheduled@.contains_key(t) ==> start.contains_key(t)
                        && self.scheduled@[t] == start[t],
                forall|t: u64|
                    t >= from && #[trigger] start.contains_key(t)
                        ==> self.scheduled@.contains_key(t),
            decreases self.scheduled.key_order().len(),
        {
            proof {
                self.scheduled.lemma_orders();
                assert(self.scheduled@.contains_pair(
                    self.scheduled.key_order()[0]@,
                    self.scheduled.value_order()[0],
                ));
            }
            let _ = self.scheduled.remove_at(0);
        }
        proof {
            self.scheduled.lemma_orders();
            let keys = self.scheduled.key_order();
            assert forall|t: u64| #[trigger] self.scheduled@.contains_key(t) implies t >= from by {
                assert(views(keys).contains(t));
                let i = choose|i: int| 0 <= i < views(keys).len() && views(keys)[i] == t;
                assert(keys[i]@ == t);
                if i > 0 {
                    crate::order::lemma_ascending_at(keys, 0, i);
                    assert(keys[0]@ < keys[i]@);
                }
            }
            assert forall|t: u64|
                #![trigger inputs_at(self.scheduled@, t)]
                inputs_at(self.scheduled@, t) == (if t < from {
                    Seq::empty()
                } else {
                    inputs_at(start, t)
                }) by {
                assert(self.scheduled@.contains_key(t) ==> t >= from);
                assert(start.contains_key(t) && t >= from ==> self.scheduled@.contains_key(t));
            }
        }
    }

    fn apply_in_order(&mut self, inputs: Vec<Pending>)
        requires
            old(self).wf(),
        ensures
            final(self).wf(),
            final(self).sim@ == all_applied(old(self).sim@, views(inputs@)),
            final(self).sim.scene == old(self).sim.scene,
            final(self).scheduled == old(self).scheduled,
    {
        let mut queue: Vec<Pending> = inputs;
        let ghost start = self.sim@;
        let ghost all = views(inputs@);
        let ghost mut taken: int = 0;
        assert(all.subrange(0, 0) =~= Seq::<PendingView>::empty());
        assert(all.subrange(0, all.len() as int) =~= all);
        while queue.len() > 0
            invariant
                0 <= taken <= all.len(),
                views(queue@) == all.subrange(taken, all.len() as int),
                self.wf(),
                self.scheduled == old(self).scheduled,
                self.sim.scene == old(self).sim.scene,
                self.sim@ == all_applied(start, all.subrange(0, taken)),
            decreases queue@.len(),
        {
            let ghost before = views(queue@);
            let p: Pending = queue.remove(0);
            proof {
                assert(before.len() == all.len() - taken);
                assert(before[0] == p@);
                assert(before[0] == all[taken]);
                assert(views(queue@) =~= before.subrange(1, before.len() as int));
                assert(views(queue@) =~= all.subrange(taken + 1, all.len() as int));
                assert(all.subrange(0, taken + 1).drop_last() =~= all.subrange(0, taken));
            }
            let _ = apply_client_msg(&mut self.sim, p.player.as_str(), p.msg);
            proof {
                taken = taken + 1;
            }
        }
        assert(all.subrange(0, taken) =~= all);
    }

    /// Simulates up to the tick `target`, each tick's inputs in canonical order before the tick
    /// itself. After a long stall the clock is moved on and only the last ticks are simulated.
    pub fn advance_to(&mut self, target: u64)
        requires
            old(self).wf(),
        ensures
            final(self).wf(),
            is_advanced(*old(self), *final(self), target),
            target <= old(self).sim.tick ==> *final(self) == *old(self),
    {
        let ghost scheduled0 = self.scheduled@;
        let ghost tick0 = self.sim.tick;
        let ghost start = start_of(tick0, target);
        if target.saturating_sub(self.sim.tick) > MAX_CATCHUP {
            self.forget_before(target.saturating_sub(MAX_CATCHUP));
            self.sim.tick = target.saturating_sub(MAX_CATCHUP);
        }
        let ghost begun = self.sim@;
        assert(begun =~= SimModel { tick: start, ..old(self).sim@ });
        while self.sim.tick < target
            invariant
                self.wf(),
                self.sim.sector == old(self).sim.sector,
                self.sim.scene == old(self).sim.scene,
                target <= tick0 ==> *self == *old(self),
                tick0 == old(self).sim.tick,
                start <= self.sim.tick,
                self.sim.tick <= target || self.sim.tick == tick0,
                run_to(self.sim@, scheduled0, target) == run_to(begun, scheduled0, target),
                forall|t: u64|
                    #![trigger inputs_at(self.scheduled@, t)]
                    inputs_at(self.scheduled@, t) == (if start <= t < self.sim.tick || (start
                        != tick0 && t < start) {
                        Seq::empty()
                    } else {
                        inputs_at(scheduled0, t)
                    }),
            decreases target - self.sim.tick,
        {
            let t: u64 = self.sim.tick;
            let ghost before = self.sim@;
            let ghost waiting = inputs_at(self.scheduled@, t);
            let ghost queue0 = self.scheduled@;
            assert(waiting == inputs_at(scheduled0, t));
            match self.scheduled.remove(&t) {
                Some(inputs) => {
                    let inputs: Vec<Pending> = sort_stably(inputs);
                    self.apply_in_order(inputs);
                },
                None => {
                    assert(stably_sorted(waiting) =~= Seq::<Pending>::empty());
                    assert(views(stably_sorted(waiting)) =~= Seq::<PendingView>::empty());
                },
            }
            proof {
                lemma_all_applied_keeps_clock(before, views(stably_sorted(waiting)));
                assert(self.sim@ == all_applied(before, views(stably_sorted(waiting))));
                assert forall|u: u64|
                    #![trigger inputs_at(self.scheduled@, u)]
                    inputs_at(self.scheduled@, u) == (if u == t {
                        Seq::empty()
                    } else {
                        inputs_at(queue0, u)
                    }) by {
                }
            }
            self.sim.step();
            proof {
                assert(self.sim@ =~= one_tick(before, waiting));
                assert forall|u: u64|
                    #![trigger inputs_at(self.scheduled@, u)]
                    inputs_at(self.scheduled@, u) == (if start <= u < self.sim.tick || (start
                        != tick0 && u < start) {
                        Seq::empty()
                    } else {
                        inputs_at(scheduled0, u)
                    }) by {
                    assert(inputs_at(queue0, u) == (if start <= u < t || (start != tick0 && u
                        < start) {
                        Seq::empty()
                    } else {
                        inputs_at(scheduled0, u)
                    }));
                }
            }
        }
    }

    /// When the local player has crossed the edge, this replica goes with them: it becomes a replica
    /// of the sector that they moved into, at the same tick, with their ship and without the inputs
    /// of the sector they left. Other ships that crossed belong to the replicas over there. Returns
    /// the new sector where the player has moved.
    pub fn rehome_local_player(&mut self, me: &str) -> (moved: Option<SectorId>)
        requires
            old(self).wf(),
        ensures
            final(self).wf(),
            ({
                let (s, to) = rehomed(
                    SimModel { transit_out: Seq::empty(), ..old(self).sim@ },
                    views(old(self).sim.transit_out@),
                    me@,
                );
                final(self).sim@ == s && moved == to
            }),
            moved is None ==> final(self).scheduled == old(self).scheduled,
            moved is None ==> final(self).sim.scene == old(self).sim.scene,
            moved is Some ==> final(self).scheduled@ == Map::<u64, Vec<Pending>>::empty(),
            moved is Some ==> final(self).sim.scene.is_empty(),
    {
        let mut transits: Vec<Transit> = self.sim.take_transits();
        let mut moved: Option<SectorId> = None;
        let ghost begun = self.sim@;
        let ghost all = views(transits@);
        let ghost mut taken: int = 0;
        assert(all.subrange(0, 0) =~= Seq::<TransitView>::empty());
        assert(all.subrange(0, all.len() as int) =~= all);
        while transits.len() > 0
            invariant
                0 <= taken <= all.len(),
                views(transits@) == all.subrange(taken, all.len() as int),
                self.wf(),
                (self.sim@, moved) == rehomed(begun, all.subrange(0, taken), me@),
                moved is None ==> self.scheduled == old(self).scheduled,
                moved is None ==> self.sim.scene == old(self).sim.scene,
                moved is Some ==> self.scheduled@ == Map::<u64, Vec<Pending>>::empty(),
                moved is Some ==> self.sim.scene.is_empty(),
            decreases transits@.len(),
        {
            let ghost before = views(transits@);
            let t: Transit = transits.remove(0);
            proof {
                assert(before.len() == all.len() - taken);
                assert(before[0] == t@);
                assert(before[0] == all[taken]);
                assert(views(transits@) =~= before.subrange(1, before.len() as int));
                assert(views(transits@) =~= all.subrange(taken + 1, all.len() as int));
                assert(all.subrange(0, taken + 1).drop_last() =~= all.subrange(0, taken));
            }
            if same_text(t.id.as_str(), me) {
                let to: SectorId = t.to;
                let mut next = Sim::for_sector(to, self.sim.rules);
                next.tick = self.sim.tick;
                assert(next@ =~= fresh_sector(to, self.sim@.rules, self.sim@.tick));
                next.accept_transit(t.id, t.ship);
                self.sim = next;
                self.scheduled = SortedMap::new();
                moved = Some(to);
            }
            proof {
                taken = taken + 1;
            }
        }
        assert(all.subrange(0, taken) =~= all);
        moved
    }
}

/// The sector of a replica, and where its player has moved, once some ships have crossed the edge.
pub open spec fn rehomed(
    s: SimModel,
    transits: Seq<TransitView>,
    me: Seq<char>,
) -> (SimModel, Option<SectorId>)
    decreases transits.len(),
{
    if transits.len() == 0 {
        (s, None)
    } else {
        let (before, moved) = rehomed(s, transits.drop_last(), me);
        let t = transits.last();
        if t.id == me {
            (with_ship(fresh_sector(t.to, before.rules, before.tick), me, t.ship), Some(t.to))
        } else {
            (before, moved)
        }
    }
}

/// A replica depends on its inputs and their ticks alone: two schedules that hold the same inputs
/// for every tick, in whatever order they came, lead to the same state. A player numbers the inputs
/// of one tick differently.
pub proof fn law_arrival_order_is_irrelevant(
    s: SimModel,
    a: Map<u64, Vec<Pending>>,
    b: Map<u64, Vec<Pending>>,
    target: u64,
)
    requires
        forall|t: u64|
            #![trigger inputs_at(a, t)]
            s.tick <= t < target ==> views(inputs_at(a, t)).to_multiset() == views(
                inputs_at(b, t),
            ).to_multiset() && numbered(inputs_at(a, t)),
    ensures
        run_to(s, a, target) == run_to(s, b, target),
    decreases target - s.tick,
{
    if s.tick < target {
        let (x, y) = (inputs_at(a, s.tick), inputs_at(b, s.tick));
        lemma_pending_ranks_by_view();
        assert forall|p: Pending, q: Pending|
            x.contains(p) && x.contains(q) && #[trigger] tied(p, q) implies p@ == q@ by {
            lemma_text_order(p.player@, q.player@, p.player@);
            let i = choose|i: int| 0 <= i < x.len() && x[i] == p;
            let j = choose|j: int| 0 <= j < x.len() && x[j] == q;
        }
        crate::sort::law_sort_shows_alike(x, y);
        let next = one_tick(s, x);
        assert(next == one_tick(s, y));
        if next.tick == s.tick + 1 {
            law_arrival_order_is_irrelevant(next, a, b, target);
        }
    }
}

/// No player has two inputs of the same number for one tick.
pub open spec fn numbered(inputs: Seq<Pending>) -> bool {
    forall|i: int, j: int|
        0 <= i < inputs.len() && 0 <= j < inputs.len() && (#[trigger] inputs[i]).player@ == (
        #[trigger] inputs[j]).player@ && inputs[i].seq == inputs[j].seq ==> i == j
}

proof fn lemma_pending_ranks_by_view()
    ensures
        ranks_by_view::<Pending>(),
{
    assert forall|x: Pending, y: Pending, u: Pending, v: Pending|
        #![trigger x.before(&y), u.before(&v)]
        x@ == u@ && y@ == v@ implies x.before(&y) == u.before(&v) by {
    }
}

/// The sectors that a player's interest touches: those of their domain's box grown by how far they see.
/// A player who is not there yet is interested in the sector itself.
pub open spec fn interest_of(sim: Sim, me: Seq<char>, view_radius: World) -> Set<SectorId> {
    let spots = ship_spots(sim.sector, sim.ships.key_order(), sim.ships.value_order());
    match tally_of(spots, me) {
        Some(t) => {
            let a = anchor_of_tally(t);
            sectors_of(
                grown(joined(t.bounds, point_box(a.0, a.1)), view_radius as int),
            ).to_set()
        },
        None => set![sim.sector],
    }
}

impl Replica {
    /// The bubbles of everyone in the sector.
    pub fn domain_field(&self, view_radius: World) -> (f: DomainField)
        requires
            self.wf(),
            in_world(view_radius as int),
            self.sim.ships.key_order().len() < u32::MAX,
        ensures
            f.wf(),
            ({
                let spots = ship_spots(
                    self.sim.sector,
                    self.sim.ships.key_order(),
                    self.sim.ships.value_order(),
                );
                &&& covers_owners(f.domains@, spots)
                &&& forall|i: int|
                    0 <= i < f.domains@.len() ==> {
                        let d = #[trigger] f.domains@[i];
                        is_domain(
                            d,
                            d.owner@,
                            anchor_of_tally(tally_of(spots, d.owner@)->0),
                            half_of_tally(tally_of(spots, d.owner@)->0),
                            tally_of(spots, d.owner@),
                            view_radius,
                        )
                    }
            }),
    {
        DomainField::from_sim(&self.sim, view_radius)
    }

    /// The sectors that the player's bubble touches: one in the middle of a sector, two near an edge,
    /// four near a corner.
    pub fn interest_sectors(&self, me: &str, view_radius: World) -> (r: SortedSet<SectorId>)
        requires
            self.wf(),
            in_world(view_radius as int),
            self.sim.ships.key_order().len() < u32::MAX,
        ensures
            r.wf(),
            r@ == interest_of(self.sim, me@, view_radius),
    {
        let ghost spots = ship_spots(
            self.sim.sector,
            self.sim.ships.key_order(),
            self.sim.ships.value_order(),
        );
        let field = self.domain_field(view_radius);
        let mut out: SortedSet<SectorId> = SortedSet::new();
        proof {
            lemma_named_where(field.domains@, me@);
            assert(has_domain(field.domains@, me@) <==> tally_of(spots, me@) is Some);
        }
        match field.get(me) {
            Some(d) => {
                let touched = d.interest.sectors();
                let mut i: usize = 0;
                assert(touched@.subrange(0, 0).to_set() =~= Set::<SectorId>::empty());
                while i < touched.len()
                    invariant
                        i <= touched@.len(),
                        out.wf(),
                        out@ == touched@.subrange(0, i as int).to_set(),
                    decreases touched@.len() - i,
                {
                    let _ = out.insert(touched[i]);
                    proof {
                        broadcast use vstd::seq_lib::group_seq_properties;

                        let seen = touched@.subrange(0, i as int);
                        assert(touched@.subrange(0, i + 1) =~= seen.push(touched@[i as int]));
                        assert(seen.push(touched@[i as int]).to_set() =~= seen.to_set().insert(
                            touched@[i as int],
                        ));
                    }
                    i = i + 1;
                }
                assert(touched@.subrange(0, i as int) =~= touched@);
            },
            None => {
                let _ = out.insert(self.sim.sector);
                assert(out@ =~= set![self.sim.sector]);
            },
        }
        out
    }
}

/// A replica, as far as hosts agree on it.
pub struct RepModel {
    pub sim: SimModel,
    pub waiting: Map<u64, Seq<Pending>>,
}

pub open spec fn rep_model(r: Replica) -> RepModel {
    RepModel { sim: r.sim@, waiting: r.scheduled@.map_values(|v: Vec<Pending>| v@) }
}

/// A host, as far as hosts agree on it.
pub struct HostModel {
    /// The sector that carries the local player's ship.
    pub home: SectorId,
    pub rules: u64,
    pub reps: Map<SectorId, RepModel>,
}

/// The sectors that one node simulates at once: all those that its player's interest touches.
pub struct SectorHost {
    pub home: SectorId,
    pub reps: SortedMap<SectorId, Replica>,
    pub rules: u64,
}

pub open spec fn rep_models(reps: Map<SectorId, Replica>) -> Map<SectorId, RepModel> {
    reps.map_values(|r: Replica| rep_model(r))
}

impl View for SectorHost {
    type V = HostModel;

    open spec fn view(&self) -> HostModel {
        HostModel { home: self.home, rules: self.rules, reps: rep_models(self.reps@) }
    }
}

/// A replica of a sector in which nothing has happened yet.
pub open spec fn cold_rep(sector: SectorId, rules: u64, tick: u64) -> RepModel {
    RepModel { sim: fresh_sector(sector, rules, tick), waiting: Map::empty() }
}

/// The host with a sector warm, at the clock of its home.
pub open spec fn ensured(h: HostModel, sector: SectorId) -> HostModel {
    if h.reps.contains_key(sector) {
        h
    } else {
        HostModel {
            reps: h.reps.insert(
                sector,
                cold_rep(sector, h.rules, h.reps[h.home].sim.tick),
            ),
            ..h
        }
    }
}

/// The host with a ship taken into one of its sectors.
pub open spec fn taken_in(
    h: HostModel,
    sector: SectorId,
    id: Seq<char>,
    ship: ShipModel,
) -> HostModel {
    let r = h.reps[sector];
    HostModel {
        reps: h.reps.insert(sector, RepModel { sim: with_ship(r.sim, id, ship), ..r }),
        ..h
    }
}

/// The host once a ship that crossed an edge has been routed. The local player takes the home with
/// them; any other ship is taken in where its destination is warm.
pub open spec fn routed_one(h: HostModel, t: TransitView, me: Seq<char>) -> HostModel {
    if t.id == me {
        HostModel { home: t.to, ..taken_in(ensured(h, t.to), t.to, t.id, t.ship) }
    } else if h.reps.contains_key(t.to) {
        taken_in(h, t.to, t.id, t.ship)
    } else {
        h
    }
}

/// The host once all the ships have been routed, and where the player has moved.
pub open spec fn routed(
    h: HostModel,
    pending: Seq<TransitView>,
    me: Seq<char>,
) -> (HostModel, Option<SectorId>)
    decreases pending.len(),
{
    if pending.len() == 0 {
        (h, None)
    } else {
        let (before, moved) = routed(h, pending.drop_last(), me);
        let t = pending.last();
        (
            routed_one(before, t, me),
            if t.id == me {
                Some(t.to)
            } else {
                moved
            },
        )
    }
}

/// A replica without its outgoing ships.
pub open spec fn emptied(r: RepModel) -> RepModel {
    RepModel { sim: SimModel { transit_out: Seq::empty(), ..r.sim }, ..r }
}

/// The outgoing ships of the first `n` sectors, sector by sector.
pub open spec fn outgoing(
    keys: Seq<SectorId>,
    reps: Map<SectorId, RepModel>,
    n: nat,
) -> Seq<TransitView>
    decreases n,
{
    if n == 0 {
        Seq::empty()
    } else {
        outgoing(keys, reps, (n - 1) as nat) + reps[keys[n - 1]].sim.transit_out
    }
}

/// Every sector that was warm is warm, with the scene that it had.
pub open spec fn scenes_kept(
    before: Map<SectorId, Replica>,
    after: Map<SectorId, Replica>,
) -> bool {
    forall|s: SectorId| #[trigger]
        before.contains_key(s) ==> after.contains_key(s) && after[s].sim.scene
            == before[s].sim.scene
}

impl SectorHost {
    /// The home is warm, and every replica is one of the sector that it is kept under.
    pub open spec fn wf(&self) -> bool {
        &&& self.reps.wf()
        &&& self.reps@.contains_key(self.home)
        &&& forall|s: SectorId| #[trigger]
            self.reps@.contains_key(s) ==> self.reps@[s].wf() && self.reps@[s].sim.sector == s
    }

    /// A host with its player's sector.
    pub fn from_home(home_sim: Sim) -> (h: Self)
        requires
            home_sim.wf(),
        ensures
            h.wf(),
            h.home == home_sim.sector,
            h.rules == home_sim.rules,
            h.reps@.dom() == set![home_sim.sector],
            h.reps@[home_sim.sector].sim == home_sim,
            h.reps@[home_sim.sector].scheduled@ == Map::<u64, Vec<Pending>>::empty(),
    {
        let home: SectorId = home_sim.sector;
        let rules: u64 = home_sim.rules;
        let mut reps: SortedMap<SectorId, Replica> = SortedMap::new();
        let _ = reps.insert(home, Replica::new(home_sim));
        let h = SectorHost { home, reps, rules };
        assert(h.reps@.dom() =~= set![home_sim.sector]);
        h
    }

    pub fn home(&self) -> (s: SectorId)
        ensures
            s == self.home,
    {
        self.home
    }

    /// The next tick of the home sector: the clock for inputs and for warming sectors.
    pub fn home_tick(&self) -> (t: u64)
        requires
            self.wf(),
        ensures
            t == self.reps@[self.home].sim.tick,
    {
        match self.reps.get(&self.home) {
            Some(r) => r.tick(),
            None => 0,
        }
    }

    pub fn home_sim(&self) -> (s: &Sim)
        requires
            self.wf(),
        ensures
            *s == self.reps@[self.home].sim,
    {
        proof {
            self.reps.lemma_orders();
        }
        let at: usize = self.reps.position(&self.home).unwrap();
        &self.reps.values()[at].sim
    }

    /// The state of a sector, where it is warm.
    pub fn sim(&self, sector: SectorId) -> (r: Option<&Sim>)
        requires
            self.wf(),
        ensures
            match r {
                Some(s) => self.reps@.contains_key(sector) && *s == self.reps@[sector].sim,
                None => !self.reps@.contains_key(sector),
            },
    {
        match self.reps.get(&sector) {
            Some(r) => Some(&r.sim),
            None => None,
        }
    }

    /// Warms a sector. One that is warm keeps its state.
    pub fn ensure(&mut self, sector: SectorId)
        requires
            old(self).wf(),
        ensures
            final(self).wf(),
            final(self)@ == ensured(old(self)@, sector),
            final(self).reps@.dom() == old(self).reps@.dom().insert(sector),
            forall|s: SectorId| #[trigger]
                old(self).reps@.contains_key(s) ==> final(self).reps@[s] == old(self).reps@[s],
            !old(self).reps@.contains_key(sector) ==> final(self).reps@[sector].sim.scene.is_empty(),
    {
        let ghost before = self@;
        if !self.reps.contains_key(&sector) {
            let tick: u64 = self.home_tick();
            let mut sim = Sim::for_sector(sector, self.rules);
            sim.tick = tick;
            assert(sim@ =~= fresh_sector(sector, self.rules, tick));
            let r = Replica::new(sim);
            let _ = self.reps.insert(sector, r);
            proof {
                assert(rep_model(r).waiting =~= Map::<u64, Seq<Pending>>::empty());
                assert(rep_model(r) == cold_rep(sector, self.rules, tick));
                assert(rep_models(self.reps@) =~= ensured(before, sector).reps);
            }
        }
        assert(self.reps@.dom() =~= old(self).reps@.dom().insert(sector));
    }

    /// Applies an input of this node to the home sector at once.
    pub fn apply_local_now(&mut self, player: &str, msg: ClientMsg)
        requires
            old(self).wf(),
        ensures
            final(self).wf(),
            final(self).home == old(self).home,
            final(self).rules == old(self).rules,
            final(self).reps@.dom() == old(self).reps@.dom(),
            final(self).reps@[old(self).home].sim@ == applied(
                old(self).reps@[old(self).home].sim@,
                player@,
                msg@,
            ),
            final(self).reps@[old(self).home].scheduled == old(self).reps@[old(
                self,
            ).home].scheduled,
            final(self).reps@[old(self).home].sim.scene == old(self).reps@[old(
                self,
            ).home].sim.scene,
            forall|s: SectorId|
                s != old(self).home && #[trigger] old(self).reps@.contains_key(s)
                    ==> final(self).reps@[s] == old(self).reps@[s],
    {
        let home: SectorId = self.home;
        let ghost before = self.reps@;
        if let Some(r) = self.reps.get_mut(&home) {
            proof {
                assert(r.wf());
                lemma_applied_keeps_sector(r.sim@, player@, msg@);
            }
            r.apply_local_now(player, msg);
        }
        assert(self.reps@.dom() =~= before.dom());
    }

    /// Schedules an input of this node in the home sector.
    pub fn schedule_home(&mut self, input: TickInput) -> (in_time: bool)
        requires
            old(self).wf(),
        ensures
            final(self).wf(),
            final(self).home == old(self).home,
            final(self).rules == old(self).rules,
            in_time == (input.tick >= old(self).reps@[old(self).home].sim.tick),
            scheduled_in(*old(self), *final(self), old(self).home, input, in_time),
    {
        let home: SectorId = self.home;
        self.schedule(home, input)
    }

    /// Schedules an input in the sector on whose stream it came. Where that sector is not warm, the
    /// input is dropped.
    pub fn schedule(&mut self, sector: SectorId, input: TickInput) -> (in_time: bool)
        requires
            old(self).wf(),
        ensures
            final(self).wf(),
            final(self).home == old(self).home,
            final(self).rules == old(self).rules,
            in_time == (old(self).reps@.contains_key(sector) && input.tick
                >= old(self).reps@[sector].sim.tick),
            scheduled_in(*old(self), *final(self), sector, input, in_time),
    {
        let ghost before = self.reps@;
        match self.reps.get_mut(&sector) {
            Some(r) => {
                assert(r.wf());
                let in_time: bool = r.schedule(input);
                assert(self.reps@.dom() =~= before.dom());
                in_time
            },
            None => false,
        }
    }

    /// Advances every warm sector to the tick.
    pub fn advance_all(&mut self, target: u64)
        requires
            old(self).wf(),
        ensures
            final(self).wf(),
            final(self).home == old(self).home,
            final(self).rules == old(self).rules,
            final(self).reps@.dom() == old(self).reps@.dom(),
            forall|s: SectorId| #[trigger]
                old(self).reps@.contains_key(s) ==> is_advanced(
                    old(self).reps@[s],
                    final(self).reps@[s],
                    target,
                ),
    {
        let ghost before = self.reps@;
        let ghost keys = self.reps.key_order();
        proof {
            self.reps.lemma_orders();
        }
        let n: usize = self.reps.len();
        let mut i: usize = 0;
        while i < n
            invariant
                i <= n == keys.len(),
                self.reps.wf(),
                self.home == old(self).home,
                self.rules == old(self).rules,
                before == old(self).reps@,
                keys == self.reps.key_order(),
                ascending(keys),
                before.dom() == views(keys).to_set(),
                self.reps@.dom() == before.dom(),
                forall|s: SectorId| #[trigger]
                    before.contains_key(s) ==> before[s].wf() && before[s].sim.sector == s,
                forall|s: SectorId| #[trigger]
                    before.contains_key(s) ==> self.reps@[s].wf() && self.reps@[s].sim.sector == s,
                forall|j: int|
                    0 <= j < i ==> is_advanced(
                        before[#[trigger] keys[j]],
                        self.reps@[keys[j]],
                        target,
                    ),
                forall|j: int|
                    i <= j < n ==> self.reps@[#[trigger] keys[j]] == before[keys[j]],
            decreases n - i,
        {
            let key: SectorId = self.reps.keys()[i];
            let ghost held = self.reps@;
            proof {
                assert(keys[i as int] == key);
                assert(views(keys)[i as int] == key);
                assert(views(keys).contains(key));
                assert(before.contains_key(key));
            }
            if let Some(r) = self.reps.get_mut(&key) {
                r.advance_to(target);
            }
            proof {
                assert(self.reps@.dom() =~= before.dom());
                crate::order::lemma_ascending_no_duplicates(keys);
                assert forall|j: int| 0 <= j < n && j != i implies self.reps@[#[trigger] keys[j]]
                    == held[keys[j]] by {
                    assert(views(keys)[j] != views(keys)[i as int]);
                }
                assert forall|j: int| 0 <= j < i + 1 implies is_advanced(
                    before[#[trigger] keys[j]],
                    self.reps@[keys[j]],
                    target,
                ) by {
                    if j < i {
                        assert(is_advanced(before[keys[j]], held[keys[j]], target));
                    }
                }
            }
            i = i + 1;
        }
        proof {
            assert forall|s: SectorId| #[trigger] before.contains_key(s) implies is_advanced(
                before[s],
                self.reps@[s],
                target,
            ) by {
                assert(views(keys).contains(s));
                let j = choose|j: int| 0 <= j < views(keys).len() && views(keys)[j] == s;
                assert(keys[j] == s);
            }
        }
    }

    /// Routes the ships that have crossed an edge. One that goes to a warm sector is handed to it
    /// with everything it carries; the local player takes the home along, and their new sector is
    /// warmed if it is not warm. Returns the new home where the player has moved.
    pub fn step_transits(&mut self, me: &str) -> (new_home: Option<SectorId>)
        requires
            old(self).wf(),
        ensures
            final(self).wf(),
            ({
                let keys = old(self).reps.key_order();
                let (h, moved) = routed(
                    HostModel {
                        reps: old(self)@.reps.map_values(|r: RepModel| emptied(r)),
                        ..old(self)@
                    },
                    outgoing(keys, old(self)@.reps, keys.len()),
                    me@,
                );
                final(self)@ == h && new_home == moved
            }),
            scenes_kept(old(self).reps@, final(self).reps@),
    {
        let mut pending: Vec<Transit> = self.drain_all();
        let ghost begun = self@;
        let ghost all = views(pending@);
        let ghost mut taken: int = 0;
        let mut new_home: Option<SectorId> = None;
        assert(all.subrange(0, 0) =~= Seq::<TransitView>::empty());
        assert(all.subrange(0, all.len() as int) =~= all);
        while pending.len() > 0
            invariant
                0 <= taken <= all.len(),
                views(pending@) == all.subrange(taken, all.len() as int),
                self.wf(),
                (self@, new_home) == routed(begun, all.subrange(0, taken), me@),
                scenes_kept(old(self).reps@, self.reps@),
            decreases pending@.len(),
        {
            let ghost before = views(pending@);
            let ghost held = self@;
            let t: Transit = pending.remove(0);
            proof {
                assert(before.len() == all.len() - taken);
                assert(before[0] == t@);
                assert(before[0] == all[taken]);
                assert(views(pending@) =~= before.subrange(1, before.len() as int));
                assert(views(pending@) =~= all.subrange(taken + 1, all.len() as int));
                assert(all.subrange(0, taken + 1).drop_last() =~= all.subrange(0, taken));
            }
            let to: SectorId = t.to;
            let ghost kept = self.reps@;
            if same_text(t.id.as_str(), me) {
                self.ensure(to);
                assert(scenes_kept(kept, self.reps@));
                assert(self@.reps.contains_key(to));
                self.take_in(to, t.id, t.ship);
                self.home = to;
                new_home = Some(to);
            } else if self.reps.contains_key(&to) {
                self.take_in(to, t.id, t.ship);
            }
            proof {
                assert(self@ == routed_one(held, t@, me@));
                assert(scenes_kept(kept, self.reps@));
                taken = taken + 1;
            }
        }
        assert(all.subrange(0, taken) =~= all);
        new_home
    }

    fn take_in(&mut self, sector: SectorId, id: String, ship: Ship)
        requires
            old(self).wf(),
            old(self).reps@.contains_key(sector),
        ensures
            final(self).wf(),
            final(self)@ == taken_in(old(self)@, sector, id@, ship@),
            final(self).reps@.contains_key(sector),
            scenes_kept(old(self).reps@, final(self).reps@),
    {
        let ghost before = self@;
        let ghost held = self.reps@;
        if let Some(r) = self.reps.get_mut(&sector) {
            assert(r.wf());
            r.accept_transit(id, ship);
        }
        proof {
            assert(self.reps@.dom() =~= held.dom());
            assert(rep_models(self.reps@) =~= taken_in(before, sector, id@, ship@).reps);
        }
    }

    fn drain_all(&mut self) -> (out: Vec<Transit>)
        requires
            old(self).wf(),
        ensures
            final(self).wf(),
            final(self)@.home == old(self)@.home,
            final(self)@.rules == old(self)@.rules,
            final(self)@.reps == old(self)@.reps.map_values(|r: RepModel| emptied(r)),
            scenes_kept(old(self).reps@, final(self).reps@),
            views(out@) == outgoing(
                old(self).reps.key_order(),
                old(self)@.reps,
                old(self).reps.key_order().len(),
            ),
    {
        let ghost before = self.reps@;
        let ghost models = rep_models(before);
        let ghost keys = self.reps.key_order();
        proof {
            self.reps.lemma_orders();
        }
        let n: usize = self.reps.len();
        let mut out: Vec<Transit> = Vec::new();
        let mut i: usize = 0;
        assert(views(out@) =~= Seq::<TransitView>::empty());
        while i < n
            invariant
                i <= n == keys.len(),
                self.reps.wf(),
                self.home == old(self).home,
                self.rules == old(self).rules,
                before == old(self).reps@,
                models == rep_models(before),
                keys == self.reps.key_order(),
                ascending(keys),
                before.dom() == views(keys).to_set(),
                self.reps@.dom() == before.dom(),
                forall|s: SectorId| #[trigger]
                    before.contains_key(s) ==> self.reps@[s].wf() && self.reps@[s].sim.sector == s,
                forall|j: int|
                    0 <= j < i ==> rep_model(self.reps@[#[trigger] keys[j]]) == emptied(
                        rep_model(before[keys[j]]),
                    ),
                scenes_kept(before, self.reps@),
                forall|j: int|
                    i <= j < n ==> self.reps@[#[trigger] keys[j]] == before[keys[j]],
                views(out@) == outgoing(keys, models, i as nat),
            decreases n - i,
        {
            let key: SectorId = self.reps.keys()[i];
            let ghost held = self.reps@;
            let ghost so_far = views(out@);
            proof {
                assert(keys[i as int] == key);
                assert(views(keys)[i as int] == key);
                assert(views(keys).contains(key));
                assert(before.contains_key(key));
            }
            if let Some(r) = self.reps.get_mut(&key) {
                let mut gone: Vec<Transit> = r.drain_transits();
                let ghost leaving = gone@;
                out.append(&mut gone);
                proof {
                    assert(views(out@) =~= so_far + views(leaving));
                    assert(views(leaving) == models[key].sim.transit_out);
                }
            }
            proof {
                assert(self.reps@.dom() =~= before.dom());
                crate::order::lemma_ascending_no_duplicates(keys);
                assert(rep_model(self.reps@[key]) == emptied(rep_model(before[key])));
                assert forall|j: int| 0 <= j < n && j != i implies self.reps@[#[trigger] keys[j]]
                    == held[keys[j]] by {
                    assert(views(keys)[j] != views(keys)[i as int]);
                }
                assert forall|j: int| 0 <= j < i + 1 implies rep_model(
                    self.reps@[#[trigger] keys[j]],
                ) == emptied(rep_model(before[keys[j]])) by {
                    if j < i {
                        assert(rep_model(held[keys[j]]) == emptied(rep_model(before[keys[j]])));
                    }
                }
            }
            i = i + 1;
        }
        proof {
            let want = models.map_values(|r: RepModel| emptied(r));
            let got = rep_models(self.reps@);
            assert forall|s: SectorId| got.contains_key(s) implies got[s] == want[s] by {
                assert(before.contains_key(s));
                assert(views(keys).contains(s));
                let j = choose|j: int| 0 <= j < views(keys).len() && views(keys)[j] == s;
                assert(keys[j] == s);
            }
            assert(got =~= want);
        }
        out
    }

    /// Drops the warm sectors that have left the interest, and returns them. The home stays.
    pub fn retain(&mut self, interest: &SortedSet<SectorId>) -> (dropped: Vec<SectorId>)
        requires
            old(self).wf(),
            interest.wf(),
        ensures
            final(self).wf(),
            final(self).home == old(self).home,
            final(self).rules == old(self).rules,
            dropped@ == old(self).reps.key_order().filter(
                |s: SectorId| s != old(self).home && !interest@.contains(s),
            ),
            final(self).reps@ == old(self).reps@.remove_keys(dropped@.to_set()),
    {
        let ghost before = self.reps@;
        let ghost keys = self.reps.key_order();
        let home: SectorId = self.home;
        let ghost p = |s: SectorId| s != home && !interest@.contains(s);
        let mut dropped: Vec<SectorId> = Vec::new();
        let n: usize = self.reps.len();
        let mut i: usize = 0;
        proof {
            reveal(Seq::filter);
            assert(keys.subrange(0, 0) =~= Seq::<SectorId>::empty());
        }
        while i < n
            invariant
                i <= n == keys.len(),
                self.reps == old(self).reps,
                self.home == home,
                self.rules == old(self).rules,
                keys == self.reps.key_order(),
                interest.wf(),
                p == (|s: SectorId| s != home && !interest@.contains(s)),
                dropped@ == keys.subrange(0, i as int).filter(p),
            decreases n - i,
        {
            let s: SectorId = self.reps.keys()[i];
            proof {
                assert(keys.subrange(0, i + 1) =~= keys.subrange(0, i as int).push(s));
                crate::sort::lemma_filter_push(keys.subrange(0, i as int), s, p);
            }
            if s != home && !interest.contains(&s) {
                dropped.push(s);
            }
            i = i + 1;
        }
        assert(keys.subrange(0, i as int) =~= keys);
        let mut k: usize = 0;
        assert(before =~= before.remove_keys(dropped@.subrange(0, 0).to_set()));
        while k < dropped.len()
            invariant
                k <= dropped@.len(),
                self.reps.wf(),
                self.home == home,
                self.rules == old(self).rules,
                dropped@ == keys.filter(p),
                self.reps@ == before.remove_keys(dropped@.subrange(0, k as int).to_set()),
            decreases dropped@.len() - k,
        {
            let s: SectorId = dropped[k];
            let _ = self.reps.remove(&s);
            proof {
                let seen = dropped@.subrange(0, k as int);
                assert(dropped@.subrange(0, k + 1) =~= seen.push(s));
                broadcast use vstd::seq_lib::group_seq_properties;

                assert(seen.push(s).to_set() =~= seen.to_set().insert(s));
                assert(self.reps@ =~= before.remove_keys(seen.push(s).to_set()));
            }
            k = k + 1;
        }
        proof {
            assert(dropped@.subrange(0, k as int) =~= dropped@);
            assert(!dropped@.contains(home)) by {
                if dropped@.contains(home) {
                    let j = choose|j: int| 0 <= j < dropped@.len() && dropped@[j] == home;
                    keys.lemma_filter_pred(p, j);
                }
            }
        }
        dropped
    }

    /// One snapshot for every warm sector, with the topic of its state.
    pub fn snapshots(&self, me: &str, now_ms: u64) -> (r: Vec<(String, Snapshot)>)
        requires
            self.wf(),
            forall|s: SectorId| #[trigger]
                self.reps@.contains_key(s) ==> self.reps@[s].sim.ships.value_order().len()
                    <= u32::MAX,
        ensures
            r@.len() == self.reps.key_order().len(),
            forall|i: int|
                #![trigger r@[i]]
                0 <= i < r@.len() ==> {
                    let token = sector_token(self.reps.key_order()[i]);
                    &&& r@[i].0@ == service_name(token) + "/state"@
                    &&& crate::room::shows_sector(
                        r@[i].1,
                        self.reps.value_order()[i].sim,
                        token,
                        me@,
                        now_ms,
                    )
                },
    {
        proof {
            self.reps.lemma_orders();
        }
        let sectors = self.reps.keys();
        let replicas = self.reps.values();
        let mut out: Vec<(String, Snapshot)> = Vec::new();
        let mut i: usize = 0;
        while i < sectors.len()
            invariant
                i <= sectors@.len(),
                self.wf(),
                sectors@ == self.reps.key_order(),
                replicas@ == self.reps.value_order(),
                sectors@.len() == replicas@.len(),
                forall|j: int|
                    #![trigger sectors@[j]]
                    0 <= j < sectors@.len() ==> self.reps@.contains_pair(
                        sectors@[j],
                        replicas@[j],
                    ),
                forall|s: SectorId| #[trigger]
                    self.reps@.contains_key(s) ==> self.reps@[s].sim.ships.value_order().len()
                        <= u32::MAX,
                out@.len() == i,
                forall|j: int|
                    #![trigger out@[j]]
                    0 <= j < i ==> {
                        let token = sector_token(sectors@[j]);
                        &&& out@[j].0@ == service_name(token) + "/state"@
                        &&& crate::room::shows_sector(
                            out@[j].1,
                            replicas@[j].sim,
                            token,
                            me@,
                            now_ms,
                        )
                    },
            decreases sectors@.len() - i,
        {
            let token: String = sectors[i].token();
            assert(self.reps@.contains_pair(sectors@[i as int], replicas@[i as int]));
            assert(self.reps@.contains_key(sectors@[i as int]));
            let snap: Snapshot = build_snapshot(&replicas[i].sim, token.as_str(), me, now_ms);
            out.push((crate::wire::topics::state(token.as_str()), snap));
            i = i + 1;
        }
        out
    }

    /// The warm sectors, ascending.
    pub fn warm_sectors(&self) -> (r: Vec<SectorId>)
        requires
            self.wf(),
        ensures
            r@ == self.reps.key_order(),
            r@.to_set() == self.reps@.dom(),
    {
        proof {
            self.reps.lemma_orders();
        }
        let keys = self.reps.keys();
        let mut out: Vec<SectorId> = Vec::new();
        let mut i: usize = 0;
        while i < keys.len()
            invariant
                i <= keys@.len(),
                out@ == keys@.subrange(0, i as int),
            decreases keys@.len() - i,
        {
            out.push(keys[i]);
            i = i + 1;
            assert(out@ =~= keys@.subrange(0, i as int));
        }
        assert(keys@.subrange(0, i as int) =~= keys@);
        assert(views(out@) =~= out@);
        out
    }
}

/// What scheduling an input in a sector makes of a host: the input joins those that wait for its
/// tick there, and nothing else changes.
pub open spec fn scheduled_in(
    before: SectorHost,
    after: SectorHost,
    sector: SectorId,
    input: TickInput,
    in_time: bool,
) -> bool {
    &&& after.reps@.dom() == before.reps@.dom()
    &&& forall|s: SectorId|
        s != sector && #[trigger] before.reps@.contains_key(s) ==> after.reps@[s]
            == before.reps@[s]
    &&& before.reps@.contains_key(sector) ==> {
        &&& after.reps@[sector].sim == before.reps@[sector].sim
        &&& forall|t: u64|
            #![trigger inputs_at(after.reps@[sector].scheduled@, t)]
            inputs_at(after.reps@[sector].scheduled@, t) == (if in_time && t == input.tick {
                inputs_at(before.reps@[sector].scheduled@, t).push(
                    Pending { player: input.player, seq: input.seq, msg: input.msg },
                )
            } else {
                inputs_at(before.reps@[sector].scheduled@, t)
            })
    }
}

proof fn lemma_applied_keeps_sector(s: SimModel, from: Seq<char>, msg: MsgView)
    ensures
        applied(s, from, msg).sector == s.sector,
{
}

/// A ship that crosses into a warm sector, or carries the local player, is in its new sector
/// afterwards with everything it had; the local player's new sector is the home.
pub proof fn law_crossing_keeps_the_ship(h: HostModel, t: TransitView, me: Seq<char>)
    requires
        h.reps.contains_key(h.home),
        h.reps.contains_key(t.to) || t.id == me,
    ensures
        ({
            let after = routed_one(h, t, me);
            &&& after.reps.contains_key(t.to)
            &&& after.reps[t.to].sim.ships.contains_pair(t.id, t.ship)
            &&& t.id == me ==> after.home == t.to
            &&& t.id != me ==> after.home == h.home
            &&& after.reps.contains_key(after.home)
            &&& forall|s: SectorId|
                s != t.to && #[trigger] h.reps.contains_key(s) ==> after.reps.contains_pair(
                    s,
                    h.reps[s],
                )
        }),
{
}

/// Sixty ticks to the second, counted from the epoch: a second later it is sixty ticks later, and a tick never lasts shorter or longer than
/// its sixtieth.
pub proof fn law_sixty_ticks_a_second(now: u64)
    requires
        now >= 1_700_000_000_000,
        now <= u64::MAX - 1000,
    ensures
        tick_of((now + 1000) as u64) == tick_of(now) + 60,
        1000 * tick_of(now) <= 60 * (now - 1_700_000_000_000) < 1000 * (tick_of(now) + 1),
        tick_of(1_700_000_000_000) == 0,
        forall|early: u64| early < 1_700_000_000_000 ==> #[trigger] tick_of(early) == 0,
{
}

/// A tick applies its inputs by player and then by their numbers, and moves the clock on by one.
pub proof fn law_inputs_of_a_tick(s: SimModel, inputs: Seq<Pending>, i: int, j: int)
    requires
        0 <= i < j < inputs.len(),
        s.tick < u64::MAX,
    ensures
        ({
            let r = stably_sorted(inputs);
            &&& r.len() == inputs.len()
            &&& r.to_multiset() == inputs.to_multiset()
            &&& !text_below(r[j].player@, r[i].player@)
            &&& r[i].player@ == r[j].player@ ==> r[i].seq <= r[j].seq
        }),
        one_tick(s, inputs).tick == s.tick + 1,
{
    crate::sort::lemma_stably_sorted(inputs);
    let r = stably_sorted(inputs);
    assert(!r[j].before(&r[i]));
}

/// Inputs are applied one after the other, each as the message of its player.
pub proof fn law_inputs_one_by_one(s: SimModel, inputs: Seq<PendingView>, p: PendingView)
    ensures
        all_applied(s, inputs.push(p)) == applied(all_applied(s, inputs), p.player, p.msg),
        all_applied(s, Seq::empty()) == s,
{
    assert(inputs.push(p).drop_last() =~= inputs);
}

/// Running on is the same in one go as with a stop on the way, and ends at the tick that was asked for; one that is there already stays.
pub proof fn law_running_on(s: SimModel, scheduled: Map<u64, Vec<Pending>>, stop: u64, target: u64)
    requires
        s.tick <= stop <= target,
    ensures
        run_to(run_to(s, scheduled, stop), scheduled, target) == run_to(s, scheduled, target),
        run_to(s, scheduled, target).tick == target,
        run_to(s, scheduled, s.tick) == s,
        s.tick < target ==> run_to(s, scheduled, (s.tick + 1) as u64) == one_tick(
            s,
            inputs_at(scheduled, s.tick),
        ),
    decreases target - s.tick,
{
    if s.tick < target {
        let next = one_tick(s, inputs_at(scheduled, s.tick));
        assert(next.tick == s.tick + 1);
        assert(run_to(next, scheduled, (s.tick + 1) as u64) == next);
        if s.tick < stop {
            law_running_on(next, scheduled, stop, target);
        } else {
            law_running_on(next, scheduled, next.tick, target);
        }
    }
}

/// A replica that has fallen behind by more than twelve ticks skips to twelve before the target; one that has not goes through every tick.
pub proof fn law_catching_up(tick: u64, target: u64)
    requires
        tick <= target,
    ensures
        target - start_of(tick, target) <= 12,
        target - tick <= 12 ==> start_of(tick, target) == tick,
        target - tick > 12 ==> start_of(tick, target) + 12 == target,
{
}

/// A player subscribes to every sector that they can see from any of their ships: a point that is no further from the hull of one than the
/// view reaches, on either axis, lies in a sector of their interest.
pub proof fn law_every_sector_in_sight(sim: Sim, me: Seq<char>, view: World, k: int, x: int, y: int)
    requires
        sim.wf(),
        0 <= view <= 0x1_0000_0000,
        0 <= k < sim.ships.key_order().len(),
        sim.ships.key_order().len() < u32::MAX,
        crate::domain::authority(sim.ships.key_order()[k]@, sim.ships.value_order()[k]) == me,
        ({
            let b = sim.ships.value_order()[k].body;
            &&& -view - 14 <= x - (9000 * sim.sector.sx + b.x) <= view + 14
            &&& -view - 14 <= y - (9000 * sim.sector.sy + b.y) <= view + 14
        }),
    ensures
        interest_of(sim, me, view).contains(
            SectorId {
                sx: crate::domain::sector_axis_of(x) as i32,
                sy: crate::domain::sector_axis_of(y) as i32,
            },
        ),
{
    sim.ships.lemma_orders();
    let spots = ship_spots(sim.sector, sim.ships.key_order(), sim.ships.value_order());
    assert(spots[k].owner == me);
    crate::domain::law_footprint_follows_entities(spots, me, k);
    let t = tally_of(spots, me)->0;
    let a = anchor_of_tally(t);
    let all = joined(t.bounds, point_box(a.0, a.1));
    let wide = grown(all, view as int);
    assert(joined(t.bounds, spots[k].bounds) == t.bounds);
    lemma_spots_small(sim.sector, sim.ships.key_order(), sim.ships.value_order());
    lemma_tally_small(spots, me);
    assert(crate::domain::holds_point(wide, x, y));
    crate::domain::law_sectors_cover_the_box(wide, x, y);
    let list = crate::domain::sectors_of(wide);
    assert(list.to_set().contains(
        SectorId {
            sx: crate::domain::sector_axis_of(x) as i32,
            sy: crate::domain::sector_axis_of(y) as i32,
        },
    ));
}

spec fn small(v: int) -> bool {
    -0x1_0000_0000_0000 <= v <= 0x1_0000_0000_0000
}

spec fn small_box(b: crate::domain::Bounds) -> bool {
    small(b.min_x as int) && small(b.min_y as int) && small(b.max_x as int) && small(b.max_y as int)
}

proof fn lemma_spots_small(sector: SectorId, ids: Seq<String>, ships: Seq<Ship>)
    requires
        ids.len() == ships.len(),
    ensures
        forall|i: int|
            0 <= i < ids.len() ==> small_box((#[trigger] ship_spots(sector, ids, ships)[i]).bounds) && (
            ship_spots(sector, ids, ships)[i].anchor matches Some(a) ==> small(a.0 as int) && small(
                a.1 as int,
            )),
{
}

proof fn lemma_tally_small(spots: Seq<crate::domain::Spot>, owner: Seq<char>)
    requires
        forall|i: int|
            0 <= i < spots.len() ==> small_box((#[trigger] spots[i]).bounds) && (
            spots[i].anchor matches Some(a) ==> small(a.0 as int) && small(a.1 as int)),
    ensures
        tally_of(spots, owner) matches Some(t) ==> small_box(t.bounds) && (t.anchor matches Some(a)
            ==> small(a.0 as int) && small(a.1 as int)),
    decreases spots.len(),
{
    if spots.len() > 0 {
        let rest = spots.drop_last();
        assert forall|i: int| 0 <= i < rest.len() implies small_box((#[trigger] rest[i]).bounds) && (
        rest[i].anchor matches Some(a) ==> small(a.0 as int) && small(a.1 as int)) by {
            assert(rest[i] == spots[i]);
        }
        lemma_tally_small(rest, owner);
        assert(small_box(spots[spots.len() - 1].bounds));
    }
}

/// A player whose ship crosses over is at home where it goes, and takes it along; the crossing of others moves nobody.
pub proof fn law_crossing_moves_the_player(s: SimModel, transits: Seq<TransitView>, t: TransitView, me: Seq<char>)
    ensures
        t.id == me ==> rehomed(s, transits.push(t), me).1 == Some(t.to) && rehomed(
            s,
            transits.push(t),
            me,
        ).0.sector == t.to && rehomed(s, transits.push(t), me).0.ships.contains_pair(me, t.ship)
            && rehomed(s, transits.push(t), me).0.tick == rehomed(s, transits, me).0.tick,
        t.id != me ==> rehomed(s, transits.push(t), me) == rehomed(s, transits, me),
        rehomed(s, Seq::empty(), me) == (s, None::<SectorId>),
{
    assert(transits.push(t).drop_last() =~= transits);
}

/// A host takes in whoever crosses into a sector that it runs, and its own player wherever they go; what happens in other sectors is not
/// touched.
pub proof fn law_crossings_are_routed(h: HostModel, t: TransitView, me: Seq<char>, other: SectorId)
    requires
        other != t.to,
    ensures
        ({
            let after = routed_one(h, t, me);
            &&& t.id == me ==> after.home == t.to
            &&& t.id != me ==> after.home == h.home
            &&& t.id == me || h.reps.contains_key(t.to) ==> after.reps.contains_key(t.to)
                && after.reps[t.to].sim.ships.contains_pair(t.id, t.ship)
            &&& t.id != me && !h.reps.contains_key(t.to) ==> after == h
            &&& after.reps.contains_key(other) <==> h.reps.contains_key(other)
            &&& h.reps.contains_key(other) ==> after.reps[other] == h.reps[other]
        }),
{
}

/// A replica that is advanced is at the tick that was asked for, or stays where it is if it is past it. What was scheduled for ticks that it has gone
/// through is used up, and what is scheduled for later waits.
pub proof fn law_replicas_advance(before: Replica, after: Replica, target: u64, t: u64)
    requires
        is_advanced(before, after, target),
    ensures
        before.sim.tick <= target ==> after.sim.tick == target,
        before.sim.tick > target ==> after.sim.tick == before.sim.tick,
        t >= target && t >= before.sim.tick ==> inputs_at(after.scheduled@, t) == inputs_at(
            before.scheduled@,
            t,
        ),
        before.sim.tick <= t < target ==> inputs_at(after.scheduled@, t).len() == 0,
        after.sim.sector == before.sim.sector,
{
    let _ = inputs_at(after.scheduled@, t);
}

/// A sector that a host begins to run is empty, under the rules and at the tick of its home; one that it runs already is left alone, and so is every
/// other.
pub proof fn law_sectors_begin_empty(h: HostModel, sector: SectorId, other: SectorId)
    requires
        other != sector,
    ensures
        h.reps.contains_key(sector) ==> ensured(h, sector) == h,
        !h.reps.contains_key(sector) ==> {
            let r = ensured(h, sector).reps[sector];
            &&& ensured(h, sector).reps.contains_key(sector)
            &&& r.sim.sector == sector
            &&& r.sim.tick == h.reps[h.home].sim.tick
            &&& r.sim.rules == h.rules
            &&& r.sim.ships == Map::<Seq<char>, ShipModel>::empty()
            &&& r.waiting == Map::<u64, Seq<Pending>>::empty()
        },
        ensured(h, sector).reps.contains_key(other) <==> h.reps.contains_key(other),
        h.reps.contains_key(other) ==> ensured(h, sector).reps[other] == h.reps[other],
        ensured(h, sector).home == h.home,
{
}

/// All ships that are on their way out are routed, sector by sector.
pub proof fn law_all_who_leave_are_routed(keys: Seq<SectorId>, reps: Map<SectorId, RepModel>, n: nat)
    requires
        n < keys.len(),
    ensures
        outgoing(keys, reps, 0).len() == 0,
        outgoing(keys, reps, n + 1) == outgoing(keys, reps, n) + reps[keys[n as int]].sim.transit_out,
        forall|r: RepModel| (#[trigger] emptied(r)).sim.transit_out.len() == 0 && emptied(r).sim.ships
            == r.sim.ships && emptied(r).waiting == r.waiting && emptied(r).sim.tick == r.sim.tick,
{
}

/// Crossings are routed one after the other, and the player is at home where the last of their own led.
pub proof fn law_crossings_one_by_one(h: HostModel, pending: Seq<TransitView>, t: TransitView, me: Seq<char>)
    ensures
        routed(h, pending.push(t), me).0 == routed_one(routed(h, pending, me).0, t, me),
        routed(h, pending.push(t), me).1 == (if t.id == me {
            Some(t.to)
        } else {
            routed(h, pending, me).1
        }),
        routed(h, Seq::empty(), me) == (h, None::<SectorId>),
{
    assert(pending.push(t).drop_last() =~= pending);
}

} // verus!
