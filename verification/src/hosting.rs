//! Hosting one sector: what the loop around an authoritative sector does on each event.
//!
//! The loop itself waits for the timer, the message stream and the shutdown, and does what it is told
//! here: publish, advertise, replicate, seal, or back off before it opens the stream again.
use vstd::prelude::*;
use vstd::string::*;

use crate::director::{board_for_sector, pilots, GALAXY, PREWARM_THRESHOLD};
use crate::leaderboard::Leaderboard;
use crate::room::{applied, apply_client_msg, build_snapshot, shows_sector};
use crate::sim::{fresh_sector, Ship, Sim, SimModel};
use crate::shard::SectorId;
use crate::sort::stably_sorted;
use crate::text::same_text;
use crate::wire::topics::{input, service, service_name, state};
use crate::wire::{ClientMsg, Snapshot};

verus! {

/// How long the loop first waits before it opens the stream again, in milliseconds.
pub const BACKOFF_START_MS: u64 = 250;

/// The longest that it waits.
pub const BACKOFF_LIMIT_MS: u64 = 10_000;

/// How a sector is hosted.
#[derive(Debug, PartialEq)]
pub struct SectorConfig {
    /// The token of the sector.
    pub sector: String,
    /// Ticks in a second.
    pub hz: u32,
    /// Ticks between two advertisements of the sector's service.
    pub advertise_every: u64,
    /// Ticks between two replicated snapshots; 0 for none.
    pub snapshot_every: u64,
    /// Ticks between two seals of the standings; 0 for none.
    pub seal_every: u64,
}

impl Default for SectorConfig {
    fn default() -> (c: Self)
        ensures
            c.sector@ == "0_0"@,
            c.hz == 20,
            c.advertise_every == 100,
            c.snapshot_every == 100,
            c.seal_every == 600,
    {
        SectorConfig {
            sector: "0_0".to_string(),
            hz: 20,
            advertise_every: 100,
            snapshot_every: 100,
            seal_every: 600,
        }
    }
}

/// The tick is a multiple of the period. Only 0 is a multiple of 0.
pub open spec fn falls_on(tick: u64, every: u64) -> bool {
    if every == 0 {
        tick == 0
    } else {
        tick % every == 0
    }
}

fn is_on(tick: u64, every: u64) -> (r: bool)
    ensures
        r == falls_on(tick, every),
{
    if every == 0 {
        tick == 0
    } else {
        tick % every == 0
    }
}

/// The wait after one more failure: twice as long, up to the limit.
pub open spec fn longer_wait(ms: u64) -> u64 {
    if ms * 2 < BACKOFF_LIMIT_MS {
        (ms * 2) as u64
    } else {
        BACKOFF_LIMIT_MS
    }
}

/// The wait before the n-th attempt in a row to open the stream.
pub open spec fn wait_before(attempt: nat) -> u64
    decreases attempt,
{
    if attempt == 0 {
        BACKOFF_START_MS
    } else {
        longer_wait(wait_before((attempt - 1) as nat))
    }
}

/// Successive waits never get shorter, and never exceed the limit.
pub proof fn law_waits_grow(attempt: nat)
    ensures
        BACKOFF_START_MS <= wait_before(attempt) <= wait_before(attempt + 1) <= BACKOFF_LIMIT_MS,
    decreases attempt,
{
    if attempt > 0 {
        law_waits_grow((attempt - 1) as nat);
    }
}

/// How long a loop waits before it opens its stream again.
#[derive(Debug, Clone, Copy, PartialEq, Eq, Structural)]
pub struct Backoff {
    /// The next wait.
    pub wait_ms: u64,
}

impl Backoff {
    pub open spec fn wf(&self) -> bool {
        self.wait_ms <= BACKOFF_LIMIT_MS
    }

    pub fn new() -> (b: Self)
        ensures
            b.wf(),
            b.wait_ms == BACKOFF_START_MS,
    {
        Backoff { wait_ms: BACKOFF_START_MS }
    }

    /// The stream did not open: how long to wait before the next attempt.
    pub fn on_open_failed(&mut self) -> (wait_ms: u64)
        requires
            old(self).wf(),
        ensures
            final(self).wf(),
            wait_ms == old(self).wait_ms,
            final(self).wait_ms == longer_wait(old(self).wait_ms),
    {
        let wait_ms: u64 = self.wait_ms;
        self.wait_ms =
        if wait_ms * 2 < BACKOFF_LIMIT_MS {
            wait_ms * 2
        } else {
            BACKOFF_LIMIT_MS
        };
        wait_ms
    }

    /// The stream is open: the next failure is the first again.
    pub fn on_opened(&mut self)
        ensures
            final(self).wf(),
            final(self).wait_ms == BACKOFF_START_MS,
    {
        self.wait_ms = BACKOFF_START_MS;
    }
}

/// What is to be done after a tick.
pub struct TickWork {
    /// Where the snapshot goes.
    pub state_topic: String,
    pub snapshot: Snapshot,
    /// Advertise the service again.
    pub advertise: bool,
    /// Replicate a snapshot of the sector.
    pub replicate: bool,
    /// Seal these standings.
    pub seal: Option<Leaderboard>,
}

/// The standings are those of the sector.
pub open spec fn is_board_of(b: Leaderboard, sim: Sim) -> bool {
    &&& b.galaxy@ == GALAXY@
    &&& b.tick == sim.tick
    &&& b.standings@ == stably_sorted(
        pilots(
            sim.ships.key_order(),
            sim.ships.value_order(),
            sim.ships.key_order().len(),
        ),
    )
}

/// The players aboard a sector.
pub open spec fn players_aboard(sim: Sim) -> nat {
    sim.ships.value_order().filter(|s: Ship| s.owner is None).len()
}

/// The loop that hosts one sector.
pub struct SectorLoop {
    pub cfg: SectorConfig,
    pub host_id: String,
    pub sim: Sim,
    pub backoff: Backoff,
}

impl SectorLoop {
    pub open spec fn wf(&self) -> bool {
        self.sim.wf() && self.backoff.wf()
    }

    /// A sector resumes from the state that was adopted from an earlier host, or starts empty.
    pub fn start(cfg: SectorConfig, host_id: String, adopted: Option<Sim>) -> (l: Self)
        requires
            adopted matches Some(s) ==> s.wf(),
        ensures
            l.wf(),
            l.cfg == cfg,
            l.host_id == host_id,
            l.backoff.wait_ms == BACKOFF_START_MS,
            match adopted {
                Some(s) => l.sim == s,
                None => l.sim@ == fresh_sector(SectorId { sx: 0, sy: 0 }, 1, 0)
                    && l.sim.scene.is_empty(),
            },
    {
        let sim: Sim = match adopted {
            Some(s) => s,
            None => Sim::new(),
        };
        SectorLoop { cfg, host_id, sim, backoff: Backoff::new() }
    }

    /// The time between two ticks in milliseconds, at least one.
    pub fn tick_ms(&self) -> (ms: u64)
        ensures
            ms == (if self.cfg.hz == 0 {
                1000int
            } else if self.cfg.hz > 1000 {
                1int
            } else {
                1000int / (self.cfg.hz as int)
            }),
    {
        let hz: u64 = if self.cfg.hz == 0 {
            1
        } else {
            self.cfg.hz as u64
        };
        let ms: u64 = 1000 / hz;
        if hz > 1000 {
            assert(1000u64 / hz == 0) by (nonlinear_arith)
                requires
                    hz > 1000,
            ;
            1
        } else {
            assert(1000u64 / hz >= 1) by (nonlinear_arith)
                requires
                    1 <= hz <= 1000,
            ;
            ms
        }
    }

    /// The topic that the players write to, where the loop listens.
    pub fn input_topic(&self) -> (t: String)
        ensures
            t@ == service_name(self.cfg.sector@) + "/in"@,
    {
        input(self.cfg.sector.as_str())
    }

    /// The service that the loop advertises.
    pub fn service(&self) -> (t: String)
        ensures
            t@ == service_name(self.cfg.sector@),
    {
        service(self.cfg.sector.as_str())
    }

    /// The stream did not open: how long to wait before the next attempt.
    pub fn on_open_failed(&mut self) -> (wait_ms: u64)
        requires
            old(self).wf(),
        ensures
            final(self).wf(),
            wait_ms == old(self).backoff.wait_ms,
            *final(self) == (SectorLoop {
                backoff: (Backoff { wait_ms: longer_wait(old(self).backoff.wait_ms) }),
                ..*old(self)
            }),
    {
        self.backoff.on_open_failed()
    }

    /// The stream is open: the next failure is the first again.
    pub fn on_opened(&mut self)
        requires
            old(self).wf(),
        ensures
            final(self).wf(),
            *final(self) == (SectorLoop {
                backoff: (Backoff { wait_ms: BACKOFF_START_MS }),
                ..*old(self)
            }),
    {
        self.backoff.on_opened();
    }

    /// Whether the neighbours are looked at after this tick, so that they are hosted before players spill
    /// over to them: every so many ticks, 0 for never, and only while the sector is busy.
    pub fn prewarm_due(&self, every: u64) -> (r: bool)
        requires
            self.wf(),
        ensures
            r == (every > 0 && falls_on(self.sim.tick, every) && self.sim.ships.key_order().len()
                >= PREWARM_THRESHOLD),
    {
        proof {
            self.sim.ships.lemma_orders();
        }
        every > 0 && is_on(self.sim.tick, every) && self.sim.ships.len() >= PREWARM_THRESHOLD
    }

    /// A tick is due: the sector moves on, its snapshot goes out, and what falls on this tick is done
    /// with it. Standings are sealed only where somebody plays.
    pub fn on_tick(&mut self, now_ms: u64) -> (w: TickWork)
        requires
            old(self).wf(),
            old(self).sim.tick < u64::MAX,
            old(self).sim.ships.value_order().len() <= u32::MAX,
        ensures
            final(self).wf(),
            final(self).cfg == old(self).cfg,
            final(self).host_id == old(self).host_id,
            final(self).backoff == old(self).backoff,
            final(self).sim@ == (SimModel {
                tick: (old(self).sim.tick + 1) as u64,
                ..old(self).sim@
            }),
            final(self).sim.scene == old(self).sim.scene,
            final(self).sim.ships == old(self).sim.ships,
            w.state_topic@ == service_name(old(self).cfg.sector@) + "/state"@,
            shows_sector(
                w.snapshot,
                final(self).sim,
                old(self).cfg.sector@,
                old(self).host_id@,
                now_ms,
            ),
            w.advertise == falls_on(final(self).sim.tick, old(self).cfg.advertise_every),
            w.replicate == (old(self).cfg.snapshot_every > 0 && falls_on(
                final(self).sim.tick,
                old(self).cfg.snapshot_every,
            )),
            w.seal is Some <==> old(self).cfg.seal_every > 0 && falls_on(
                final(self).sim.tick,
                old(self).cfg.seal_every,
            ) && players_aboard(final(self).sim) > 0,
            w.seal matches Some(b) ==> is_board_of(b, final(self).sim),
    {
        self.sim.step();
        let tick: u64 = self.sim.tick;
        let snapshot = build_snapshot(
            &self.sim,
            self.cfg.sector.as_str(),
            self.host_id.as_str(),
            now_ms,
        );
        let due: bool = self.cfg.seal_every > 0 && is_on(tick, self.cfg.seal_every);
        let seal: Option<Leaderboard> = if due && self.sim.player_count() > 0 {
            Some(board_for_sector(&self.sim))
        } else {
            None
        };
        TickWork {
            state_topic: state(self.cfg.sector.as_str()),
            snapshot,
            advertise: is_on(tick, self.cfg.advertise_every),
            replicate: self.cfg.snapshot_every > 0 && is_on(tick, self.cfg.snapshot_every),
            seal,
        }
    }

    /// A message has come. What is not on the sector's input topic, or could not be read, is passed
    /// over; anything else is applied as the order of its verified sender.
    pub fn on_message(&mut self, topic: &str, from: &str, msg: Option<ClientMsg>)
        requires
            old(self).wf(),
        ensures
            final(self).wf(),
            final(self).cfg == old(self).cfg,
            final(self).host_id == old(self).host_id,
            final(self).backoff == old(self).backoff,
            final(self).sim.scene == old(self).sim.scene,
            final(self).sim@ == (match msg {
                Some(m) => if topic@ == service_name(old(self).cfg.sector@) + "/in"@ {
                    applied(old(self).sim@, from@, m@)
                } else {
                    old(self).sim@
                },
                None => old(self).sim@,
            }),
    {
        let in_topic: String = self.input_topic();
        if same_text(topic, in_topic.as_str()) {
            if let Some(m) = msg {
                let _ = apply_client_msg(&mut self.sim, from, m);
            }
        }
    }
}

/// What is due every so many ticks is due once in each round of them: with a tick, so many ticks later, and at no tick in between.
pub proof fn law_due_once_a_round(tick: u64, every: u64, later: u64)
    requires
        every > 0,
        tick < later < tick + every,
        tick + every <= u64::MAX,
    ensures
        falls_on(tick, every) ==> !falls_on(later, every) && falls_on((tick + every) as u64, every),
        falls_on((tick + every) as u64, every) == falls_on(tick, every),
        falls_on(0, every),
{
    let (t, n, d) = (tick as int, every as int, (later - tick) as int);
    vstd::arithmetic::div_mod::lemma_mod_add_multiples_vanish(t, n);
    assert((t + n) % n == t % n) by {
        vstd::arithmetic::div_mod::lemma_mod_add_multiples_vanish(t, n);
    }
    if t % n == 0 {
        vstd::arithmetic::div_mod::lemma_fundamental_div_mod(t, n);
        vstd::arithmetic::div_mod::lemma_fundamental_div_mod_converse(t + d, n, t / n, d);
    }
    vstd::arithmetic::div_mod::lemma_small_mod(0, every as nat);
}

/// A loop first waits a quarter of a second, then each time twice as long, up to ten seconds.
pub proof fn law_waits_in_figures(attempt: nat)
    ensures
        wait_before(0) == 250,
        2 * wait_before(attempt) <= 10_000 ==> wait_before(attempt + 1) == 2 * wait_before(attempt),
        2 * wait_before(attempt) > 10_000 ==> wait_before(attempt + 1) == 10_000,
{
}

/// The board of a sector is that of its players at its tick: those with more kills first.
pub proof fn law_sector_boards(b: Leaderboard, sim: Sim, i: int, j: int)
    requires
        is_board_of(b, sim),
        0 <= i < j < b.standings@.len(),
    ensures
        b.tick == sim.tick,
        b.standings@[i].kills >= b.standings@[j].kills,
        b.standings@.len() == pilots(
            sim.ships.key_order(),
            sim.ships.value_order(),
            sim.ships.key_order().len(),
        ).len(),
{
    let p = pilots(sim.ships.key_order(), sim.ships.value_order(), sim.ships.key_order().len());
    crate::sort::lemma_stably_sorted(p);
    crate::leaderboard::law_more_kills_rank_higher(p, i, j);
}

} // verus!
