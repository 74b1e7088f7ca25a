//! What the frontends of a game ask for: a phone spends less than a workstation.
use vstd::prelude::*;

use crate::aabb::Aabb;
use crate::domain::{can_grow, grown, point_box, sectors_of, Bounds};
use crate::galaxy::World;
use crate::shard::SectorId;

verus! {

/// What a client runs on.
#[derive(Debug, Clone, Copy, PartialEq, Eq, Structural)]
pub enum Platform {
    Native,
    DesktopBrowser,
    MobileBrowser,
}

/// What a client asks for.
#[derive(Debug, Clone, Copy, PartialEq, Eq, Structural)]
pub struct ClientProfile {
    pub platform: Platform,
    /// Half the side of the box that the client sees.
    pub view_radius: i32,
    /// The most entities that it draws.
    pub max_entities: usize,
    /// It looks at every so many-th snapshot.
    pub snapshot_divisor: u32,
    /// It predicts what its player does.
    pub predict: bool,
    /// It fetches what it will need when it connects.
    pub prefetch_assets: bool,
    /// The sectors that it subscribes to at most.
    pub interest_sectors: usize,
}

/// The profile of a platform.
pub open spec fn profile_of(p: Platform) -> ClientProfile {
    match p {
        Platform::Native => ClientProfile {
            platform: p,
            view_radius: 2200,
            max_entities: 4000,
            snapshot_divisor: 1,
            predict: true,
            prefetch_assets: true,
            interest_sectors: 9,
        },
        Platform::DesktopBrowser => ClientProfile {
            platform: p,
            view_radius: 1600,
            max_entities: 1500,
            snapshot_divisor: 1,
            predict: true,
            prefetch_assets: true,
            interest_sectors: 9,
        },
        Platform::MobileBrowser => ClientProfile {
            platform: p,
            view_radius: 1000,
            max_entities: 400,
            snapshot_divisor: 2,
            predict: true,
            prefetch_assets: false,
            interest_sectors: 5,
        },
    }
}

impl Platform {
    /// The profile that suits the platform.
    pub fn profile(self) -> (c: ClientProfile)
        ensures
            c == profile_of(self),
    {
        match self {
            Platform::Native => ClientProfile {
                platform: self,
                view_radius: 2200,
                max_entities: 4000,
                snapshot_divisor: 1,
                predict: true,
                prefetch_assets: true,
                interest_sectors: 9,
            },
            Platform::DesktopBrowser => ClientProfile {
                platform: self,
                view_radius: 1600,
                max_entities: 1500,
                snapshot_divisor: 1,
                predict: true,
                prefetch_assets: true,
                interest_sectors: 9,
            },
            Platform::MobileBrowser => ClientProfile {
                platform: self,
                view_radius: 1000,
                max_entities: 400,
                snapshot_divisor: 2,
                predict: true,
                prefetch_assets: false,
                interest_sectors: 5,
            },
        }
    }
}

impl ClientProfile {
    /// The box that the client sees from a point.
    pub fn viewport(&self, x: i32, y: i32) -> (b: Aabb)
        requires
            self.view_radius >= 0,
            i32::MIN <= x - self.view_radius,
            x + self.view_radius <= i32::MAX,
            i32::MIN <= y - self.view_radius,
            y + self.view_radius <= i32::MAX,
        ensures
            b.min_x == x - self.view_radius,
            b.min_y == y - self.view_radius,
            b.max_x == x + self.view_radius,
            b.max_y == y + self.view_radius,
            b.wf(),
    {
        let r: i32 = self.view_radius;
        Aabb::new(x - r, y - r, x + r, y + r)
    }

    /// Does the client look at the snapshot of this tick?
    pub fn should_process(&self, server_tick: u64) -> (r: bool)
        ensures
            r == (server_tick as int % (if self.snapshot_divisor == 0 {
                1
            } else {
                self.snapshot_divisor as int
            }) == 0),
    {
        let d: u64 = if self.snapshot_divisor == 0 {
            1
        } else {
            self.snapshot_divisor as u64
        };
        server_tick % d == 0
    }

    /// The sectors that the client subscribes to at a point: those that the box it sees overlaps.
    pub fn interest_set(&self, x: World, y: World) -> (r: Vec<SectorId>)
        requires
            can_grow(point_box(x, y), self.view_radius as int),
        ensures
            r@ == sectors_of(grown(point_box(x, y), self.view_radius as int)),
    {
        Bounds::around(x, y, self.view_radius as i64).sectors()
    }
}

/// The longest wait before a client connects again.
pub const RECONNECT_LIMIT_MS: u64 = 8000;

/// How long to wait: a quarter of a second, doubled with every attempt up to the limit.
pub open spec fn wait_of(attempt: u32) -> u64 {
    if attempt == 0 {
        250
    } else if attempt == 1 {
        500
    } else if attempt == 2 {
        1000
    } else if attempt == 3 {
        2000
    } else if attempt == 4 {
        4000
    } else {
        RECONNECT_LIMIT_MS
    }
}

/// How long to wait before the next attempt to connect.
pub fn reconnect_backoff_ms(attempt: u32) -> (ms: u64)
    ensures
        ms == wait_of(attempt),
{
    let mut ms: u64 = 250;
    let mut i: u32 = 0;
    while i < attempt && i < 5
        invariant
            i <= attempt,
            i <= 5,
            ms == wait_of(i),
        decreases attempt - i,
    {
        ms = ms * 2;
        i = i + 1;
    }
    if ms > RECONNECT_LIMIT_MS {
        RECONNECT_LIMIT_MS
    } else {
        ms
    }
}

/// The waits grow, each twice the one before, until they reach the limit.
pub proof fn law_waits_double(attempt: u32)
    requires
        attempt < u32::MAX,
    ensures
        wait_of(attempt) <= RECONNECT_LIMIT_MS,
        wait_of((attempt + 1) as u32) == (if 2 * wait_of(attempt) < RECONNECT_LIMIT_MS {
            (2 * wait_of(attempt)) as u64
        } else {
            RECONNECT_LIMIT_MS
        }),
{
}

/// A phone is asked for less than a desktop browser, and that for less than a native client; all of
/// them predict.
pub proof fn law_budgets_are_tiered()
    ensures
        profile_of(Platform::MobileBrowser).view_radius < profile_of(
            Platform::DesktopBrowser,
        ).view_radius,
        profile_of(Platform::DesktopBrowser).view_radius < profile_of(Platform::Native).view_radius,
        profile_of(Platform::MobileBrowser).max_entities < profile_of(
            Platform::DesktopBrowser,
        ).max_entities,
        profile_of(Platform::DesktopBrowser).max_entities < profile_of(
            Platform::Native,
        ).max_entities,
        forall|p: Platform| #[trigger] profile_of(p).predict,
{
}

} // verus!
