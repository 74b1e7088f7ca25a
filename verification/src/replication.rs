//! Replicas of a region: how a lost host is replaced without a split brain, and how replicas that
//! simulate the same region find out who diverged.
//!
//! The decisions are functions of what all members can see, so every node reaches the same one.
use vstd::prelude::*;
use vstd::string::*;

use crate::order::{views, SortedMap};
use crate::sort::{
    in_order, law_sort_shows_alike, lemma_filter_push, lemma_stably_sorted, lemma_views_permuted, sort_stably,
    stably_sorted, tied, Ranked,
};
use crate::text::{lemma_text_order, same_text, text_below, text_less};

verus! {

/// The score of a node that cannot be reached.
pub const UNREACHABLE: i64 = -1;

/// How many replicas of a region must exist, the primary among them.
#[derive(Debug, Clone, Copy, PartialEq, Eq, Structural)]
pub struct ReplicationConstraint {
    pub k: usize,
}

impl Default for ReplicationConstraint {
    fn default() -> (c: Self)
        ensures
            c.k == 3,
    {
        ReplicationConstraint { k: 3 }
    }
}

/// A node that could hold a replica.
#[derive(Debug)]
pub struct ReplicaCandidate {
    pub node_id: String,
    /// Round trip from the primary in milliseconds, where it was measured.
    pub rtt_ms: Option<u32>,
    /// How far the node's player is from the region in the game, in whole units.
    pub in_game_dist: u32,
    /// Spare cores.
    pub free_cores: u32,
    pub alive: bool,
}

/// What counts of a node when replicas are placed. Its score is the higher the better: being near in the
/// game weighs most, then a short round trip, then spare cores up to sixteen.
#[derive(Debug, Clone, Copy, PartialEq, Eq, Structural)]
pub enum Suitability {
    /// It cannot be reached: below all others.
    Unreachable,
    /// Nothing is known of it: a score of nothing.
    Unlisted,
    Reachable { in_game_dist: u32, rtt_ms: u32, free_cores: u32 },
}

/// The round trip of a node whose round trip was not measured, in milliseconds.
pub const USUAL_RTT_MS: u32 = 120;

pub open spec fn counted_cores(free_cores: u32) -> int {
    if free_cores < 16 {
        free_cores as int
    } else {
        16
    }
}

impl Suitability {
    /// The score is a fraction, `4000 / (1 + distance) + 200 / (20 + round trip) + 1 + cores / 16`. These
    /// are sixteen times its upper part, and its lower part.
    pub open spec fn num(self) -> int {
        match self {
            Suitability::Unreachable => -1,
            Suitability::Unlisted => 0,
            Suitability::Reachable { in_game_dist, rtt_ms, free_cores } => 64_000 * (20
                + rtt_ms as int) + 3_200 * (1 + in_game_dist as int) + (16 + counted_cores(
                free_cores,
            )) * ((1 + in_game_dist as int) * (20 + rtt_ms as int)),
        }
    }

    pub open spec fn den(self) -> int {
        match self {
            Suitability::Reachable { in_game_dist, rtt_ms, free_cores } => (1
                + in_game_dist as int) * (20 + rtt_ms as int),
            _ => 1,
        }
    }

    /// The score in sixteenths: the whole ones, and what is left over as a fraction below one.
    fn parts(&self) -> (r: (i64, u128, u128))
        ensures
            self.num() == r.0 * r.2 + r.1,
            self.den() == r.2,
            r.1 < r.2,
            r.1 <= 0x4_0000_0000_0000,
            r.2 <= 0x2_0000_0000_0000_0000,
    {
        match *self {
            Suitability::Unreachable => (-1, 0, 1),
            Suitability::Unlisted => (0, 0, 1),
            Suitability::Reachable { in_game_dist, rtt_ms, free_cores } => {
                let p: u128 = 1 + in_game_dist as u128;
                let t: u128 = 20 + rtt_ms as u128;
                let cores: i64 = if free_cores < 16 {
                    free_cores as i64
                } else {
                    16
                };
                proof {
                    assert(1 <= p * t <= 0x2_0000_0000_0000_0000) by (nonlinear_arith)
                        requires
                            1 <= p <= 0x1_0000_0000,
                            20 <= t <= 0x2_0000_0000,
                    ;
                }
                let of: u128 = p * t;
                let n: u128 = 64_000 * t + 3_200 * p;
                let whole: u128 = n / of;
                let rest: u128 = n % of;
                proof {
                    vstd::arithmetic::div_mod::lemma_fundamental_div_mod(n as int, of as int);
                    vstd::arithmetic::div_mod::lemma_mod_bound(n as int, of as int);
                    assert(0 <= whole <= n && rest <= n) by (nonlinear_arith)
                        requires
                            n == of * whole + rest,
                            of >= 1,
                            whole >= 0,
                            rest >= 0,
                    ;
                    assert((whole + 16 + cores) * of + rest == n + (16 + cores) * of)
                        by (nonlinear_arith)
                        requires
                            n == of * whole + rest,
                    ;
                }
                (whole as i64 + 16 + cores, rest, of)
            },
        }
    }

    /// Whether the score is higher than another, told exactly.
    pub fn beats(&self, other: &Self) -> (r: bool)
        ensures
            r == scores_above(*self, *other),
    {
        let (aw, ar, ao): (i64, u128, u128) = self.parts();
        let (bw, br, bo): (i64, u128, u128) = other.parts();
        proof {
            lemma_fractions(aw as int, ar as int, ao as int, bw as int, br as int, bo as int);
            lemma_small_product(ar as int, bo as int);
            lemma_small_product(br as int, ao as int);
        }
        if aw != bw {
            return aw > bw;
        }
        ar * bo > br * ao
    }
}

proof fn lemma_small_product(a: int, b: int)
    requires
        0 <= a <= 0x4_0000_0000_0000,
        0 <= b <= 0x2_0000_0000_0000_0000,
    ensures
        0 <= a * b <= u128::MAX,
{
    assert(0 <= a * b <= 0x4_0000_0000_0000 * 0x2_0000_0000_0000_0000) by (nonlinear_arith)
        requires
            0 <= a <= 0x4_0000_0000_0000,
            0 <= b <= 0x2_0000_0000_0000_0000,
    ;
}

proof fn lemma_fractions(aw: int, ar: int, ao: int, bw: int, br: int, bo: int)
    requires
        0 <= ar < ao,
        0 <= br < bo,
    ensures
        ((aw * ao + ar) * bo > (bw * bo + br) * ao) == (aw > bw || (aw == bw && ar * bo > br * ao)),
{
    assert((aw * ao + ar) * bo - (bw * bo + br) * ao == (aw - bw) * (ao * bo) + ar * bo - br * ao)
        by (nonlinear_arith);
    assert(0 <= ar * bo < ao * bo) by (nonlinear_arith)
        requires
            0 <= ar < ao,
            0 < bo,
    ;
    assert(0 <= br * ao < ao * bo) by (nonlinear_arith)
        requires
            0 <= br < bo,
            0 < ao,
    ;
    if aw > bw {
        assert((aw - bw) * (ao * bo) >= ao * bo) by (nonlinear_arith)
            requires
                aw - bw >= 1,
                ao * bo > 0,
        ;
    } else if aw < bw {
        assert((aw - bw) * (ao * bo) <= -(ao * bo)) by (nonlinear_arith)
            requires
                aw - bw <= -1,
                ao * bo > 0,
        ;
    } else {
        assert((aw - bw) * (ao * bo) == 0) by (nonlinear_arith)
            requires
                aw == bw,
        ;
    }
}

/// The first score is the higher one.
pub open spec fn scores_above(a: Suitability, b: Suitability) -> bool {
    a.num() * b.den() > b.num() * a.den()
}

proof fn lemma_den(a: Suitability)
    ensures
        a.den() >= 1,
{
    if let Suitability::Reachable { in_game_dist, rtt_ms, free_cores } = a {
        assert((1 + in_game_dist as int) * (20 + rtt_ms as int) >= 1) by (nonlinear_arith);
    }
}

/// What scores no higher than a second that scores no higher than a third scores no higher than the third.
proof fn lemma_scores(a: Suitability, b: Suitability, c: Suitability)
    ensures
        !scores_above(a, a),
        scores_above(a, b) ==> !scores_above(b, a),
        !scores_above(a, b) && !scores_above(b, c) ==> !scores_above(a, c),
{
    lemma_den(a);
    lemma_den(b);
    lemma_den(c);
    let (an, ad, bn, bd, cn, cd) = (a.num(), a.den(), b.num(), b.den(), c.num(), c.den());
    if !scores_above(a, b) && !scores_above(b, c) {
        assert(an * bd * cd <= bn * ad * cd) by (nonlinear_arith)
            requires
                an * bd <= bn * ad,
                cd >= 1,
        ;
        assert(bn * cd * ad <= cn * bd * ad) by (nonlinear_arith)
            requires
                bn * cd <= cn * bd,
                ad >= 1,
        ;
        assert(an * cd <= cn * ad) by (nonlinear_arith)
            requires
                an * bd * cd <= bn * ad * cd,
                bn * cd * ad <= cn * bd * ad,
                bd >= 1,
        ;
    }
}

/// What counts of a candidate.
pub open spec fn suitability_of(c: ReplicaCandidate) -> Suitability {
    if c.alive {
        Suitability::Reachable {
            in_game_dist: c.in_game_dist,
            rtt_ms: match c.rtt_ms {
                Some(ms) => ms,
                None => USUAL_RTT_MS,
            },
            free_cores: c.free_cores,
        }
    } else {
        Suitability::Unreachable
    }
}

/// The score of a candidate in whole millionths. It is a figure to show: candidates are ranked by the
/// scores themselves.
pub open spec fn score_of(c: ReplicaCandidate) -> int {
    if c.alive {
        62_500 * suitability_of(c).num() / suitability_of(c).den()
    } else {
        UNREACHABLE as int
    }
}

impl ReplicaCandidate {
    pub fn suitability(&self) -> (r: Suitability)
        ensures
            r == suitability_of(*self),
    {
        if !self.alive {
            return Suitability::Unreachable;
        }
        Suitability::Reachable {
            in_game_dist: self.in_game_dist,
            rtt_ms: match self.rtt_ms {
                Some(ms) => ms,
                None => USUAL_RTT_MS,
            },
            free_cores: self.free_cores,
        }
    }

    pub fn score(&self) -> (s: i64)
        ensures
            s == score_of(*self),
            self.alive ==> s >= 1_000_000,
    {
        if !self.alive {
            return UNREACHABLE;
        }
        let suitability = self.suitability();
        let (whole, rest, of): (i64, u128, u128) = suitability.parts();
        proof {
            lemma_small_product(rest as int, 62_500);
            lemma_figure(suitability, whole as int, rest as int, of as int);
        }
        whole * 62_500 + (rest * 62_500 / of) as i64
    }
}

proof fn lemma_figure(a: Suitability, whole: int, rest: int, of: int)
    requires
        a is Reachable,
        a.num() == whole * of + rest,
        a.den() == of,
        0 <= rest < of,
    ensures
        16 <= whole <= 64_192,
        0 <= rest * 62_500 / of <= 62_500,
        62_500 * a.num() / a.den() == whole * 62_500 + rest * 62_500 / of,
{
    let p = 1 + a->in_game_dist as int;
    let t = 20 + a->rtt_ms as int;
    let c = 16 + counted_cores(a->free_cores);
    assert(64_000 * t <= 64_000 * of) by (nonlinear_arith)
        requires
            of == p * t,
            p >= 1,
            t >= 1,
    ;
    assert(3_200 * p <= 160 * of) by (nonlinear_arith)
        requires
            of == p * t,
            p >= 1,
            t >= 20,
    ;
    assert(c * of <= 32 * of) by (nonlinear_arith)
        requires
            c <= 32,
            of >= 1,
    ;
    assert(c * of >= 16 * of) by (nonlinear_arith)
        requires
            c >= 16,
            of >= 1,
    ;
    assert(whole >= 16) by (nonlinear_arith)
        requires
            whole * of + rest >= 16 * of,
            rest < of,
            of >= 1,
    ;
    assert(whole <= 64_192) by (nonlinear_arith)
        requires
            whole * of <= 64_192 * of,
            of >= 1,
    ;
    let e = rest * 62_500;
    vstd::arithmetic::div_mod::lemma_fundamental_div_mod(e, of);
    vstd::arithmetic::div_mod::lemma_mod_bound(e, of);
    vstd::arithmetic::div_mod::lemma_div_pos_is_pos(e, of);
    assert(e / of <= 62_500) by (nonlinear_arith)
        requires
            of * (e / of) <= 62_500 * of,
            of >= 1,
    ;
    assert(62_500 * (whole * of + rest) == of * (whole * 62_500 + e / of) + e % of)
        by (nonlinear_arith)
        requires
            e == rest * 62_500,
            e == of * (e / of) + e % of,
    ;
    vstd::arithmetic::div_mod::lemma_fundamental_div_mod_converse(
        62_500 * a.num(),
        of,
        whole * 62_500 + e / of,
        e % of,
    );
}

/// The figure never turns the ranking around: a candidate that scores no higher shows no higher a figure.
pub proof fn law_figure_follows_ranking(a: ReplicaCandidate, b: ReplicaCandidate)
    requires
        !scores_above(suitability_of(a), suitability_of(b)),
    ensures
        score_of(a) <= score_of(b),
{
    let (x, y) = (suitability_of(a), suitability_of(b));
    lemma_den(x);
    lemma_den(y);
    let (xn, xd, yn, yd) = (x.num(), x.den(), y.num(), y.den());
    if a.alive {
        assert(xn > 0) by {
            assert((1 + a.in_game_dist as int) * (20 + x->rtt_ms as int) >= 1);
            assert((16 + counted_cores(a.free_cores)) * xd >= 0) by (nonlinear_arith)
                requires
                    xd >= 1,
                    counted_cores(a.free_cores) >= 0,
            ;
        }
        assert(xn * yd > 0) by (nonlinear_arith)
            requires
                xn > 0,
                yd >= 1,
        ;
        assert(yn * xd > 0);
        assert(yn > 0) by (nonlinear_arith)
            requires
                yn * xd > 0,
                xd >= 1,
        ;
        assert(b.alive);
        let (m, n) = (62_500 * xn / xd, 62_500 * yn / yd);
        vstd::arithmetic::div_mod::lemma_fundamental_div_mod(62_500 * xn, xd);
        vstd::arithmetic::div_mod::lemma_mod_bound(62_500 * xn, xd);
        vstd::arithmetic::div_mod::lemma_fundamental_div_mod(62_500 * yn, yd);
        vstd::arithmetic::div_mod::lemma_mod_bound(62_500 * yn, yd);
        if m >= n + 1 {
            assert(xd * m * yd <= 62_500 * xn * yd) by (nonlinear_arith)
                requires
                    xd * m <= 62_500 * xn,
                    yd >= 1,
            ;
            assert((n + 1) * yd == yd * n + yd) by (nonlinear_arith);
            assert(62_500 * yn * xd < (n + 1) * yd * xd) by (nonlinear_arith)
                requires
                    62_500 * yn < (n + 1) * yd,
                    xd >= 1,
            ;
            assert((n + 1) * yd * xd <= xd * m * yd) by (nonlinear_arith)
                requires
                    n + 1 <= m,
                    xd >= 1,
                    yd >= 1,
            ;
            assert(62_500 * xn * yd == 62_500 * (xn * yd)) by (nonlinear_arith);
            assert(62_500 * yn * xd == 62_500 * (yn * xd)) by (nonlinear_arith);
            assert(false);
        }
    } else if b.alive {
        assert(62_500 * yn / yd >= 0) by {
            assert((16 + counted_cores(b.free_cores)) * yd >= 0) by (nonlinear_arith)
                requires
                    yd >= 1,
                    counted_cores(b.free_cores) >= 0,
            ;
            vstd::arithmetic::div_mod::lemma_div_pos_is_pos(62_500 * yn, yd);
        }
    }
}

/// What a member is to its region.
#[derive(Debug, Clone, Copy, PartialEq, Eq, Structural)]
pub enum ReplicaRole {
    /// The host that owns the simulation.
    Primary,
    /// A hot standby.
    Backup,
}

/// A member of a replica set.
#[derive(Debug, PartialEq)]
pub struct ReplicaMember {
    pub node_id: String,
    pub role: ReplicaRole,
    /// The tick of its last heartbeat.
    pub last_seen_tick: u64,
    pub healthy: bool,
}

/// A member with a text in place of a string.
pub struct MemberView {
    pub node_id: Seq<char>,
    pub role: ReplicaRole,
    pub last_seen_tick: u64,
    pub healthy: bool,
}

impl View for ReplicaMember {
    type V = MemberView;

    open spec fn view(&self) -> MemberView {
        MemberView {
            node_id: self.node_id@,
            role: self.role,
            last_seen_tick: self.last_seen_tick,
            healthy: self.healthy,
        }
    }
}

/// The replica set of a region.
#[derive(Debug, PartialEq)]
pub struct ReplicaSet {
    pub region: String,
    pub constraint: ReplicationConstraint,
    pub members: Vec<ReplicaMember>,
}

/// What to do so that the constraint holds again.
#[derive(Debug, PartialEq, Eq)]
pub struct ReplicationPlan {
    /// The backup that becomes primary; none while the primary is healthy.
    pub promote: Option<String>,
    /// The nodes that the region is copied to, the best first.
    pub copy_to: Vec<String>,
    /// The members that are retired.
    pub drop: Vec<String>,
}

/// A plan with texts in place of strings.
#[verifier::ext_equal]
pub struct PlanView {
    pub promote: Option<Seq<char>>,
    pub copy_to: Seq<Seq<char>>,
    pub drop: Seq<Seq<char>>,
}

impl View for ReplicationPlan {
    type V = PlanView;

    open spec fn view(&self) -> PlanView {
        PlanView {
            promote: match self.promote {
                Some(id) => Some(id@),
                None => None,
            },
            copy_to: views(self.copy_to@),
            drop: views(self.drop@),
        }
    }
}

/// The first member that has the role of primary.
pub open spec fn first_primary(m: Seq<MemberView>) -> Option<int>
    decreases m.len(),
{
    if m.len() == 0 {
        None
    } else {
        match first_primary(m.drop_last()) {
            Some(i) => Some(i),
            None => if m.last().role == ReplicaRole::Primary {
                Some(m.len() - 1)
            } else {
                None
            },
        }
    }
}

proof fn lemma_first_primary(m: Seq<MemberView>)
    ensures
        match first_primary(m) {
            Some(i) => 0 <= i < m.len() && m[i].role == ReplicaRole::Primary && (forall|j: int|
                0 <= j < i ==> (#[trigger] m[j]).role == ReplicaRole::Backup),
            None => forall|j: int|
                0 <= j < m.len() ==> (#[trigger] m[j]).role == ReplicaRole::Backup,
        },
    decreases m.len(),
{
    if m.len() > 0 {
        let rest = m.drop_last();
        lemma_first_primary(rest);
        assert forall|j: int| 0 <= j < rest.len() implies (#[trigger] m[j]) == rest[j] by {
        }
    }
}

pub open spec fn healthy_in(m: Seq<MemberView>) -> nat
    decreases m.len(),
{
    if m.len() == 0 {
        0
    } else {
        healthy_in(m.drop_last()) + (if m.last().healthy {
            1nat
        } else {
            0nat
        })
    }
}

/// The node is a member.
pub open spec fn is_member(m: Seq<MemberView>, node: Seq<char>) -> bool {
    exists|i: int| 0 <= i < m.len() && (#[trigger] m[i]).node_id == node
}

/// The first member of that id.
pub open spec fn first_member(m: Seq<MemberView>, node: Seq<char>) -> Option<int>
    decreases m.len(),
{
    if m.len() == 0 {
        None
    } else {
        match first_member(m.drop_last(), node) {
            Some(i) => Some(i),
            None => if m.last().node_id == node {
                Some(m.len() - 1)
            } else {
                None
            },
        }
    }
}

proof fn lemma_first_member(m: Seq<MemberView>, node: Seq<char>)
    ensures
        match first_member(m, node) {
            Some(i) => 0 <= i < m.len() && m[i].node_id == node && (forall|j: int|
                0 <= j < i ==> (#[trigger] m[j]).node_id != node),
            None => forall|j: int| 0 <= j < m.len() ==> (#[trigger] m[j]).node_id != node,
        },
    decreases m.len(),
{
    if m.len() > 0 {
        let rest = m.drop_last();
        lemma_first_member(rest, node);
        assert forall|j: int| 0 <= j < rest.len() implies (#[trigger] m[j]) == rest[j] by {
        }
    }
}

/// The members once a heartbeat has come in.
pub open spec fn observed(m: Seq<MemberView>, node: Seq<char>, now: u64) -> Seq<MemberView> {
    match first_member(m, node) {
        Some(i) => m.update(i, MemberView { last_seen_tick: now, healthy: true, ..m[i] }),
        None => m,
    }
}

/// A member that has just received its copy.
pub open spec fn newcomer(node: Seq<char>, now: u64) -> MemberView {
    MemberView { node_id: node, role: ReplicaRole::Backup, last_seen_tick: now, healthy: true }
}

/// The members once a node is admitted.
pub open spec fn admitted(m: Seq<MemberView>, node: Seq<char>, now: u64) -> Seq<MemberView> {
    if is_member(m, node) {
        m
    } else {
        m.push(newcomer(node, now))
    }
}

/// A member, unhealthy if it has been silent for longer than `timeout`.
pub open spec fn aged(m: MemberView, now: u64, timeout: u64) -> MemberView {
    if now > m.last_seen_tick && now - m.last_seen_tick > timeout {
        MemberView { healthy: false, ..m }
    } else {
        m
    }
}

/// The members once the dropped ones are retired.
pub open spec fn kept(m: Seq<MemberView>, drop: Seq<Seq<char>>) -> Seq<MemberView> {
    m.filter(|x: MemberView| !drop.contains(x.node_id))
}

/// The members once one of them is made the primary.
pub open spec fn promoted(m: Seq<MemberView>, promote: Option<Seq<char>>) -> Seq<MemberView> {
    match promote {
        Some(id) => m.map_values(
            |x: MemberView|
                MemberView {
                    role: if x.node_id == id {
                        ReplicaRole::Primary
                    } else {
                        ReplicaRole::Backup
                    },
                    ..x
                },
        ),
        None => m,
    }
}

/// The members once the first `n` nodes are admitted one after the other.
pub open spec fn all_admitted(
    m: Seq<MemberView>,
    nodes: Seq<Seq<char>>,
    n: nat,
    now: u64,
) -> Seq<MemberView>
    decreases n,
{
    if n == 0 {
        m
    } else {
        admitted(all_admitted(m, nodes, (n - 1) as nat, now), nodes[n - 1], now)
    }
}

/// The members after a plan has been carried out.
pub open spec fn applied(m: Seq<MemberView>, plan: PlanView, now: u64) -> Seq<MemberView> {
    all_admitted(
        promoted(kept(m, plan.drop), plan.promote),
        plan.copy_to,
        plan.copy_to.len(),
        now,
    )
}

pub fn clone_texts(list: &Vec<String>) -> (r: Vec<String>)
    ensures
        r@ == list@,
{
    let mut out: Vec<String> = Vec::new();
    let mut i: usize = 0;
    while i < list.len()
        invariant
            i <= list@.len(),
            out@ == list@.subrange(0, i as int),
        decreases list@.len() - i,
    {
        out.push(list[i].clone());
        i = i + 1;
        assert(out@ =~= list@.subrange(0, i as int));
    }
    assert(list@.subrange(0, i as int) =~= list@);
    out
}

/// Is the text one of the list?
pub fn lists_text(list: &Vec<String>, s: &str) -> (r: bool)
    ensures
        r == views(list@).contains(s@),
{
    let mut i: usize = 0;
    while i < list.len()
        invariant
            i <= list@.len(),
            forall|j: int| 0 <= j < i ==> (#[trigger] list@[j])@ != s@,
        decreases list@.len() - i,
    {
        if same_text(list[i].as_str(), s) {
            assert(views(list@)[i as int] == s@);
            return true;
        }
        i = i + 1;
    }
    assert forall|j: int| 0 <= j < views(list@).len() implies views(list@)[j] != s@ by {
        assert(list@[j]@ != s@);
    }
    false
}

impl ReplicaSet {
    /// A new set, with the primary as its one member.
    pub fn new(region: &str, primary: &str, constraint: ReplicationConstraint, now: u64) -> (s:
        Self)
        ensures
            s.region@ == region@,
            s.constraint == constraint,
            views(s.members@) == seq![
                MemberView {
                    node_id: primary@,
                    role: ReplicaRole::Primary,
                    last_seen_tick: now,
                    healthy: true,
                },
            ],
    {
        let mut members: Vec<ReplicaMember> = Vec::new();
        members.push(
            ReplicaMember {
                node_id: primary.to_string(),
                role: ReplicaRole::Primary,
                last_seen_tick: now,
                healthy: true,
            },
        );
        let s = ReplicaSet { region: region.to_string(), constraint, members };
        assert(views(s.members@) =~= seq![
            MemberView {
                node_id: primary@,
                role: ReplicaRole::Primary,
                last_seen_tick: now,
                healthy: true,
            },
        ]);
        s
    }

    pub fn primary(&self) -> (r: Option<&ReplicaMember>)
        ensures
            match (r, first_primary(views(self.members@))) {
                (Some(m), Some(i)) => 0 <= i < self.members@.len() && *m == self.members@[i],
                (None, None) => true,
                _ => false,
            },
    {
        let ghost all = views(self.members@);
        proof {
            lemma_first_primary(all);
        }
        let mut i: usize = 0;
        while i < self.members.len()
            invariant
                i <= self.members@.len(),
                all == views(self.members@),
                forall|j: int| 0 <= j < i ==> (#[trigger] all[j]).role == ReplicaRole::Backup,
            decreases self.members@.len() - i,
        {
            assert(all[i as int] == self.members@[i as int]@);
            if self.members[i].role == ReplicaRole::Primary {
                proof {
                    lemma_first_primary(all);
                }
                return Some(&self.members[i]);
            }
            i = i + 1;
        }
        None
    }

    pub fn healthy_count(&self) -> (n: usize)
        ensures
            n == healthy_in(views(self.members@)),
    {
        let ghost all = views(self.members@);
        let mut n: usize = 0;
        let mut i: usize = 0;
        assert(all.subrange(0, 0) =~= Seq::<MemberView>::empty());
        while i < self.members.len()
            invariant
                n <= i <= self.members@.len(),
                all == views(self.members@),
                n == healthy_in(all.subrange(0, i as int)),
            decreases self.members@.len() - i,
        {
            proof {
                assert(all.subrange(0, i + 1).drop_last() =~= all.subrange(0, i as int));
            }
            if self.members[i].healthy {
                n = n + 1;
            }
            i = i + 1;
        }
        assert(all.subrange(0, i as int) =~= all);
        n
    }

    pub fn contains(&self, node: &str) -> (r: bool)
        ensures
            r == is_member(views(self.members@), node@),
    {
        let ghost all = views(self.members@);
        let mut i: usize = 0;
        while i < self.members.len()
            invariant
                i <= self.members@.len(),
                all == views(self.members@),
                forall|j: int| 0 <= j < i ==> (#[trigger] all[j]).node_id != node@,
            decreases self.members@.len() - i,
        {
            if same_text(self.members[i].node_id.as_str(), node) {
                assert(all[i as int].node_id == node@);
                return true;
            }
            i = i + 1;
        }
        false
    }

    /// Takes a heartbeat in. One from a node that is not a member is ignored.
    pub fn observe(&mut self, node: &str, now: u64)
        ensures
            final(self).region == old(self).region,
            final(self).constraint == old(self).constraint,
            views(final(self).members@) == observed(views(old(self).members@), node@, now),
    {
        let ghost all = views(self.members@);
        proof {
            lemma_first_member(all, node@);
        }
        let mut i: usize = 0;
        while i < self.members.len() && !same_text(self.members[i].node_id.as_str(), node)
            invariant
                i <= self.members@.len(),
                self.members == old(self).members,
                self.region == old(self).region,
                self.constraint == old(self).constraint,
                all == views(self.members@),
                forall|j: int| 0 <= j < i ==> (#[trigger] all[j]).node_id != node@,
            decreases self.members@.len() - i,
        {
            i = i + 1;
        }
        if i < self.members.len() {
            assert(all[i as int].node_id == node@);
            self.members[i].last_seen_tick = now;
            self.members[i].healthy = true;
        }
        assert(views(self.members@) =~= observed(all, node@, now));
    }

    /// Admits a node that has received its copy. A member is not admitted twice.
    pub fn admit_node(&mut self, node: &str, now: u64)
        ensures
            final(self).region == old(self).region,
            final(self).constraint == old(self).constraint,
            views(final(self).members@) == admitted(views(old(self).members@), node@, now),
    {
        let ghost all = views(self.members@);
        if !self.contains(node) {
            self.members.push(
                ReplicaMember {
                    node_id: node.to_string(),
                    role: ReplicaRole::Backup,
                    last_seen_tick: now,
                    healthy: true,
                },
            );
            assert(views(self.members@) =~= all.push(newcomer(node@, now)));
        }
    }

    /// Marks the members that have been silent for longer than `timeout` ticks as unhealthy.
    pub fn expire(&mut self, now: u64, timeout: u64)
        ensures
            final(self).region == old(self).region,
            final(self).constraint == old(self).constraint,
            views(final(self).members@) == views(old(self).members@).map_values(
                |m: MemberView| aged(m, now, timeout),
            ),
    {
        let ghost all = views(self.members@);
        let mut i: usize = 0;
        while i < self.members.len()
            invariant
                i <= self.members@.len(),
                self.members@.len() == all.len(),
                self.region == old(self).region,
                self.constraint == old(self).constraint,
                forall|j: int|
                    0 <= j < i ==> (#[trigger] self.members@[j])@ == aged(all[j], now, timeout),
                forall|j: int| i <= j < all.len() ==> (#[trigger] self.members@[j])@ == all[j],
            decreases all.len() - i,
        {
            assert(self.members@[i as int]@ == all[i as int]);
            if now.saturating_sub(self.members[i].last_seen_tick) > timeout {
                self.members[i].healthy = false;
            }
            i = i + 1;
        }
        assert(views(self.members@) =~= all.map_values(|m: MemberView| aged(m, now, timeout)));
    }

    /// Carries a plan out on the set: retires, promotes, and admits the new backups.
    pub fn apply(&mut self, plan: &ReplicationPlan, now: u64)
        ensures
            final(self).region == old(self).region,
            final(self).constraint == old(self).constraint,
            views(final(self).members@) == applied(views(old(self).members@), plan@, now),
    {
        let ghost all = views(self.members@);
        let ghost drop = views(plan.drop@);
        let ghost stays = |x: MemberView| !drop.contains(x.node_id);
        let mut rest: Vec<ReplicaMember> = Vec::new();
        let ghost mut taken: int = 0;
        proof {
            reveal(Seq::filter);
            assert(all.subrange(0, 0) =~= Seq::<MemberView>::empty());
            assert(views(rest@) =~= Seq::<MemberView>::empty());
            assert(all.subrange(0, all.len() as int) =~= all);
        }
        while self.members.len() > 0
            invariant
                0 <= taken <= all.len(),
                views(self.members@) == all.subrange(taken, all.len() as int),
                self.region == old(self).region,
                self.constraint == old(self).constraint,
                drop == views(plan.drop@),
                stays == (|x: MemberView| !drop.contains(x.node_id)),
                views(rest@) == all.subrange(0, taken).filter(stays),
            decreases self.members@.len(),
        {
            let ghost before = views(self.members@);
            let ghost so_far = views(rest@);
            let m: ReplicaMember = self.members.remove(0);
            proof {
                assert(before[0] == m@);
                assert(before.len() == all.len() - taken);
                assert(before[0] == all.subrange(taken, all.len() as int)[0]);
                assert(all[taken] == m@);
                assert(views(self.members@) =~= before.subrange(1, before.len() as int));
                assert(views(self.members@) =~= all.subrange(taken + 1, all.len() as int));
                assert(all.subrange(0, taken + 1) =~= all.subrange(0, taken).push(m@));
                lemma_filter_push(all.subrange(0, taken), m@, stays);
                taken = taken + 1;
            }
            if !lists_text(&plan.drop, m.node_id.as_str()) {
                rest.push(m);
                assert(views(rest@) =~= so_far.push(m@));
            }
        }
        proof {
            assert(all.subrange(0, taken) =~= all);
            assert(views(rest@) == kept(all, drop));
        }
        self.members = rest;
        let ghost left = views(self.members@);
        if let Some(id) = &plan.promote {
            let mut i: usize = 0;
            while i < self.members.len()
                invariant
                    i <= self.members@.len(),
                    self.members@.len() == left.len(),
                    self.region == old(self).region,
                    self.constraint == old(self).constraint,
                    forall|j: int|
                        0 <= j < i ==> (#[trigger] self.members@[j])@ == promoted(
                            left,
                            Some(id@),
                        )[j],
                    forall|j: int|
                        i <= j < left.len() ==> (#[trigger] self.members@[j])@ == left[j],
                decreases left.len() - i,
            {
                assert(self.members@[i as int]@ == left[i as int]);
                let role: ReplicaRole = if same_text(
                    self.members[i].node_id.as_str(),
                    id.as_str(),
                ) {
                    ReplicaRole::Primary
                } else {
                    ReplicaRole::Backup
                };
                self.members[i].role = role;
                i = i + 1;
            }
        }
        let ghost ready = views(self.members@);
        assert(ready =~= promoted(left, plan@.promote));
        let ghost nodes = views(plan.copy_to@);
        let mut k: usize = 0;
        while k < plan.copy_to.len()
            invariant
                k <= plan.copy_to@.len(),
                nodes == views(plan.copy_to@),
                self.region == old(self).region,
                self.constraint == old(self).constraint,
                views(self.members@) == all_admitted(ready, nodes, k as nat, now),
            decreases plan.copy_to@.len() - k,
        {
            assert(nodes[k as int] == plan.copy_to@[k as int]@);
            self.admit_node(plan.copy_to[k].as_str(), now);
            k = k + 1;
        }
    }
}

/// The first of two nodes comes before the second: it has the higher score, or the same one and the
/// lower id.
pub open spec fn preferred(a: Suitability, x: Seq<char>, b: Suitability, y: Seq<char>) -> bool {
    scores_above(a, b) || (!scores_above(b, a) && text_below(x, y))
}

fn prefers(a: &Suitability, x: &str, b: &Suitability, y: &str) -> (r: bool)
    ensures
        r == preferred(*a, x@, *b, y@),
{
    a.beats(b) || (!b.beats(a) && text_less(x, y))
}

/// Of two nodes only one comes before the other; what does not come before a second that does not come
/// before a third does not come before the third; and where neither comes first, they have one id.
proof fn lemma_preferred(
    a: Suitability,
    x: Seq<char>,
    b: Suitability,
    y: Seq<char>,
    c: Suitability,
    z: Seq<char>,
)
    ensures
        !preferred(a, x, a, x),
        preferred(a, x, b, y) ==> !preferred(b, y, a, x),
        !preferred(a, x, b, y) && !preferred(b, y, c, z) ==> !preferred(a, x, c, z),
        !preferred(a, x, b, y) && !preferred(b, y, a, x) ==> x == y,
{
    lemma_scores(a, b, c);
    lemma_scores(a, c, b);
    lemma_scores(b, a, c);
    lemma_scores(b, c, a);
    lemma_scores(c, a, b);
    lemma_scores(c, b, a);
    lemma_text_order(x, y, z);
    lemma_text_order(x, z, y);
    lemma_text_order(y, x, z);
    lemma_text_order(y, z, x);
    lemma_text_order(z, y, x);
    lemma_text_order(z, x, y);
    lemma_text_order(x, x, x);
}

/// A candidate that is not a member yet.
#[derive(Debug)]
pub struct Fresh {
    pub suitability: Suitability,
    pub node: String,
}

impl Ranked for Fresh {
    open spec fn before(&self, other: &Self) -> bool {
        preferred(self.suitability, self.node@, other.suitability, other.node@)
    }

    fn goes_before(&self, other: &Self) -> (r: bool) {
        prefers(&self.suitability, self.node.as_str(), &other.suitability, other.node.as_str())
    }

    proof fn before_asymmetric(a: &Self, b: &Self) {
        lemma_preferred(a.suitability, a.node@, b.suitability, b.node@, a.suitability, a.node@);
    }

    proof fn before_negatively_transitive(a: &Self, b: &Self, c: &Self) {
        lemma_preferred(a.suitability, a.node@, b.suitability, b.node@, c.suitability, c.node@);
    }
}

/// What counts of a node: what its last entry among the candidates says, if there is one.
pub open spec fn suitability_for(
    candidates: Seq<ReplicaCandidate>,
    node: Seq<char>,
) -> Suitability
    decreases candidates.len(),
{
    if candidates.len() == 0 {
        Suitability::Unlisted
    } else if candidates.last().node_id@ == node {
        suitability_of(candidates.last())
    } else {
        suitability_for(candidates.drop_last(), node)
    }
}

/// The first of two nodes comes before the second, as the candidates have it.
pub open spec fn ahead(candidates: Seq<ReplicaCandidate>, x: Seq<char>, y: Seq<char>) -> bool {
    preferred(suitability_for(candidates, x), x, suitability_for(candidates, y), y)
}

proof fn lemma_ahead(
    candidates: Seq<ReplicaCandidate>,
    x: Seq<char>,
    y: Seq<char>,
    z: Seq<char>,
)
    ensures
        !ahead(candidates, x, x),
        ahead(candidates, x, y) ==> !ahead(candidates, y, x),
        !ahead(candidates, x, y) && !ahead(candidates, y, z) ==> !ahead(candidates, x, z),
        !ahead(candidates, x, y) && !ahead(candidates, y, x) ==> x == y,
{
    lemma_preferred(
        suitability_for(candidates, x),
        x,
        suitability_for(candidates, y),
        y,
        suitability_for(candidates, z),
        z,
    );
}

/// The primary is there and healthy.
pub open spec fn primary_ok(m: Seq<MemberView>) -> bool {
    match first_primary(m) {
        Some(i) => m[i].healthy,
        None => false,
    }
}

pub open spec fn may_inherit(m: MemberView) -> bool {
    m.healthy && m.role == ReplicaRole::Backup
}

/// The member takes over: of the healthy backups it has the highest score, and of those with that
/// score the lowest id.
pub open spec fn is_heir(
    m: Seq<MemberView>,
    candidates: Seq<ReplicaCandidate>,
    at: int,
) -> bool {
    &&& 0 <= at < m.len()
    &&& may_inherit(m[at])
    &&& forall|j: int|
        0 <= j < m.len() && may_inherit(#[trigger] m[j]) ==> !ahead(
            candidates,
            m[j].node_id,
            m[at].node_id,
        )
}

/// The id of the member that takes over; none where no backup is healthy.
pub open spec fn heir(m: Seq<MemberView>, candidates: Seq<ReplicaCandidate>) -> Option<Seq<char>> {
    if exists|at: int| is_heir(m, candidates, at) {
        Some(m[choose|at: int| is_heir(m, candidates, at)].node_id)
    } else {
        None
    }
}

/// The candidates that can be reached and are not members, by their scores.
pub open spec fn fresh_of(m: Seq<MemberView>, candidates: Seq<ReplicaCandidate>) -> Seq<Fresh> {
    candidates.filter(is_fresh_for(m)).map_values(as_fresh())
}

pub open spec fn is_fresh_for(m: Seq<MemberView>) -> spec_fn(ReplicaCandidate) -> bool {
    |c: ReplicaCandidate| c.alive && !is_member(m, c.node_id@)
}

pub open spec fn as_fresh() -> spec_fn(ReplicaCandidate) -> Fresh {
    |c: ReplicaCandidate| Fresh { suitability: suitability_of(c), node: c.node_id }
}

/// How many replicas are missing.
pub open spec fn missing(m: Seq<MemberView>, k: usize) -> nat {
    if healthy_in(m) < k {
        (k - healthy_in(m)) as nat
    } else {
        0
    }
}

pub open spec fn smaller(a: nat, b: nat) -> nat {
    if a < b {
        a
    } else {
        b
    }
}

/// The nodes that the region is copied to: the best of the fresh ones, as many as are missing.
pub open spec fn copies(
    m: Seq<MemberView>,
    candidates: Seq<ReplicaCandidate>,
    k: usize,
) -> Seq<Seq<char>> {
    let best = stably_sorted(fresh_of(m, candidates));
    best.take(smaller(missing(m, k), best.len()) as int).map_values(|f: Fresh| f.node@)
}

/// The ids of the members that are not healthy.
pub open spec fn dead_ids(m: Seq<MemberView>) -> Seq<Seq<char>> {
    m.filter(|x: MemberView| !x.healthy).map_values(|x: MemberView| x.node_id)
}

/// The plan of recovery.
pub open spec fn planned(
    m: Seq<MemberView>,
    candidates: Seq<ReplicaCandidate>,
    k: usize,
) -> PlanView {
    PlanView {
        promote: if primary_ok(m) {
            None
        } else {
            heir(m, candidates)
        },
        copy_to: copies(m, candidates, k),
        drop: dead_ids(m),
    }
}

proof fn lemma_heir_unique(
    m: Seq<MemberView>,
    candidates: Seq<ReplicaCandidate>,
    a: int,
    b: int,
)
    requires
        is_heir(m, candidates, a),
        is_heir(m, candidates, b),
    ensures
        m[a].node_id == m[b].node_id,
{
    lemma_ahead(candidates, m[a].node_id, m[b].node_id, m[a].node_id);
    assert(may_inherit(m[a]) && may_inherit(m[b]));
}

fn listed(candidates: &Vec<ReplicaCandidate>, node: &str) -> (s: Suitability)
    ensures
        s == suitability_for(candidates@, node@),
{
    let mut i: usize = candidates.len();
    assert(candidates@.subrange(0, i as int) =~= candidates@);
    while i > 0
        invariant
            i <= candidates@.len(),
            suitability_for(candidates@, node@) == suitability_for(
                candidates@.subrange(0, i as int),
                node@,
            ),
        decreases i,
    {
        let c = &candidates[i - 1];
        proof {
            let part = candidates@.subrange(0, i as int);
            assert(part.last() == *c);
            assert(part.drop_last() =~= candidates@.subrange(0, i - 1));
        }
        if same_text(c.node_id.as_str(), node) {
            return c.suitability();
        }
        i = i - 1;
    }
    Suitability::Unlisted
}

impl ReplicaSet {
    /// The plan of recovery: whom to promote, where to copy the region, whom to retire. The same
    /// set and the same candidates give the same plan on every node. `expire` comes first.
    pub fn plan(&self, candidates: &Vec<ReplicaCandidate>) -> (p: ReplicationPlan)
        ensures
            p@ == planned(views(self.members@), candidates@, self.constraint.k),
    {
        let drop = self.dead();
        let healthy_primary: bool = match self.primary() {
            Some(p) => p.healthy,
            None => false,
        };
        let promote: Option<String> = if healthy_primary {
            None
        } else {
            self.successor(candidates)
        };
        let copy_to = self.refill(candidates);
        let p = ReplicationPlan { promote, copy_to, drop };
        proof {
            let all = views(self.members@);
            lemma_first_primary(all);
            if let Some(i) = first_primary(all) {
                assert(all[i] == self.members@[i]@);
            }
            assert(healthy_primary == primary_ok(all));
            assert(p@ =~= planned(all, candidates@, self.constraint.k));
        }
        p
    }

    fn dead(&self) -> (r: Vec<String>)
        ensures
            views(r@) == dead_ids(views(self.members@)),
    {
        let ghost all = views(self.members@);
        let ghost p = |x: MemberView| !x.healthy;
        let ghost f = |x: MemberView| x.node_id;
        let mut out: Vec<String> = Vec::new();
        let mut i: usize = 0;
        proof {
            reveal(Seq::filter);
            assert(all.subrange(0, 0) =~= Seq::<MemberView>::empty());
            assert(views(out@) =~= all.subrange(0, 0).filter(p).map_values(f));
        }
        while i < self.members.len()
            invariant
                i <= self.members@.len(),
                all == views(self.members@),
                p == (|x: MemberView| !x.healthy),
                f == (|x: MemberView| x.node_id),
                views(out@) == all.subrange(0, i as int).filter(p).map_values(f),
            decreases self.members@.len() - i,
        {
            let m = &self.members[i];
            let ghost seen = all.subrange(0, i as int);
            let ghost before = views(out@);
            proof {
                assert(all[i as int] == m@);
                assert(all.subrange(0, i + 1) =~= seen.push(m@));
                lemma_filter_push(seen, m@, p);
            }
            if !m.healthy {
                out.push(m.node_id.clone());
                proof {
                    assert(views(out@) =~= before.push(m.node_id@));
                    assert(views(out@) =~= seen.filter(p).push(m@).map_values(f));
                }
            }
            i = i + 1;
        }
        assert(all.subrange(0, i as int) =~= all);
        out
    }

    fn successor(&self, candidates: &Vec<ReplicaCandidate>) -> (r: Option<String>)
        ensures
            match r {
                Some(id) => heir(views(self.members@), candidates@) == Some(id@),
                None => heir(views(self.members@), candidates@) is None,
            },
    {
        let ghost all = views(self.members@);
        let mut best: Option<usize> = None;
        let mut best_suits: Suitability = Suitability::Unlisted;
        let mut i: usize = 0;
        while i < self.members.len()
            invariant
                i <= self.members@.len(),
                all == views(self.members@),
                match best {
                    Some(at) => {
                        &&& at < i
                        &&& may_inherit(all[at as int])
                        &&& best_suits == suitability_for(candidates@, all[at as int].node_id)
                        &&& forall|j: int|
                            0 <= j < i && may_inherit(#[trigger] all[j]) ==> !ahead(
                                candidates@,
                                all[j].node_id,
                                all[at as int].node_id,
                            )
                    },
                    None => forall|j: int| 0 <= j < i ==> !may_inherit(#[trigger] all[j]),
                },
            decreases self.members@.len() - i,
        {
            let m = &self.members[i];
            assert(all[i as int] == m@);
            if m.healthy && m.role == ReplicaRole::Backup {
                let suits: Suitability = listed(candidates, m.node_id.as_str());
                match best {
                    Some(at) => {
                        let held = &self.members[at];
                        assert(all[at as int] == held@);
                        let better: bool = prefers(
                            &suits,
                            m.node_id.as_str(),
                            &best_suits,
                            held.node_id.as_str(),
                        );
                        proof {
                            lemma_ahead(candidates@, m.node_id@, held.node_id@, m.node_id@);
                        }
                        if better {
                            proof {
                                assert forall|j: int|
                                    0 <= j < i + 1 && may_inherit(
                                        #[trigger] all[j],
                                    ) implies !ahead(
                                    candidates@,
                                    all[j].node_id,
                                    m.node_id@,
                                ) by {
                                    lemma_ahead(
                                        candidates@,
                                        all[j].node_id,
                                        held.node_id@,
                                        m.node_id@,
                                    );
                                }
                            }
                            best = Some(i);
                            best_suits = suits;
                        }
                    },
                    None => {
                        proof {
                            lemma_ahead(candidates@, m.node_id@, m.node_id@, m.node_id@);
                        }
                        best = Some(i);
                        best_suits = suits;
                    },
                }
            }
            i = i + 1;
        }
        match best {
            Some(at) => {
                proof {
                    assert(is_heir(all, candidates@, at as int));
                    let other = choose|b: int| is_heir(all, candidates@, b);
                    lemma_heir_unique(all, candidates@, at as int, other);
                }
                Some(self.members[at].node_id.clone())
            },
            None => {
                proof {
                    assert forall|b: int| !is_heir(all, candidates@, b) by {
                        if is_heir(all, candidates@, b) {
                            assert(may_inherit(all[b]));
                        }
                    }
                }
                None
            },
        }
    }

    fn refill(&self, candidates: &Vec<ReplicaCandidate>) -> (r: Vec<String>)
        ensures
            views(r@) == copies(views(self.members@), candidates@, self.constraint.k),
    {
        let ghost all = views(self.members@);
        let ghost p = is_fresh_for(all);
        let ghost f = as_fresh();
        let surviving: usize = self.healthy_count();
        let need: usize = self.constraint.k.saturating_sub(surviving);
        let mut fresh: Vec<Fresh> = Vec::new();
        let mut i: usize = 0;
        proof {
            reveal(Seq::filter);
            assert(candidates@.subrange(0, 0) =~= Seq::<ReplicaCandidate>::empty());
            assert(fresh@ =~= candidates@.subrange(0, 0).filter(p).map_values(f));
        }
        while i < candidates.len()
            invariant
                i <= candidates@.len(),
                all == views(self.members@),
                p == is_fresh_for(all),
                f == as_fresh(),
                fresh@ == candidates@.subrange(0, i as int).filter(p).map_values(f),
            decreases candidates@.len() - i,
        {
            let c = &candidates[i];
            let ghost seen = candidates@.subrange(0, i as int);
            proof {
                assert(candidates@.subrange(0, i + 1) =~= seen.push(*c));
                assert(p(*c) == (c.alive && !is_member(all, c.node_id@)));
                lemma_filter_push(seen, *c, p);
            }
            if c.alive && !self.contains(c.node_id.as_str()) {
                fresh.push(Fresh { suitability: c.suitability(), node: c.node_id.clone() });
                assert(fresh@ =~= seen.filter(p).push(*c).map_values(f));
            }
            i = i + 1;
        }
        assert(candidates@.subrange(0, i as int) =~= candidates@);
        let best = sort_stably(fresh);
        let n: usize = if need < best.len() {
            need
        } else {
            best.len()
        };
        let mut out: Vec<String> = Vec::new();
        let mut k: usize = 0;
        while k < n
            invariant
                k <= n <= best@.len(),
                out@.len() == k,
                forall|j: int| 0 <= j < k ==> #[trigger] out@[j] == best@[j].node,
            decreases n - k,
        {
            out.push(best[k].node.clone());
            k = k + 1;
        }
        assert(views(out@) =~= copies(all, candidates@, self.constraint.k));
        out
    }
}

/// A replica's claim about the state of a region at a tick.
#[derive(Debug, PartialEq, Eq)]
pub struct StateProof {
    pub region: String,
    pub node: String,
    pub tick: u64,
    pub hash: u64,
}

/// What comparing the claims of a tick has shown.
#[derive(Debug, PartialEq, Eq)]
pub struct Agreement {
    /// The hash that more than half of the replicas computed, where there is one.
    pub quorum_hash: Option<u64>,
    /// The nodes that computed the most common hash.
    pub agree: Vec<String>,
    /// The nodes that computed another.
    pub dissent: Vec<String>,
    /// More than half of the replicas computed the most common hash.
    pub has_quorum: bool,
}

/// What a replica should do about it.
#[derive(Debug, PartialEq, Eq)]
pub enum Verdict {
    /// Too few claims, or no majority.
    Inconclusive,
    /// All agree.
    Agreed,
    /// This node is out-voted and adopts the state with this hash.
    ResyncTo(u64),
    /// This node is in the majority, and these diverged from it.
    PeersDiverged(Vec<String>),
}

/// How many claims give a hash.
pub open spec fn votes(proofs: Seq<StateProof>, hash: u64) -> nat
    decreases proofs.len(),
{
    if proofs.len() == 0 {
        0
    } else {
        votes(proofs.drop_last(), hash) + (if proofs.last().hash == hash {
            1nat
        } else {
            0nat
        })
    }
}

/// The hash has the most votes, and is the lowest of those that have.
pub open spec fn is_winner(proofs: Seq<StateProof>, hash: u64) -> bool {
    &&& votes(proofs, hash) > 0
    &&& forall|h: u64|
        #![trigger votes(proofs, h)]
        votes(proofs, h) < votes(proofs, hash) || (votes(proofs, h) == votes(proofs, hash) && hash
            <= h)
}

pub open spec fn gives_hash(hash: u64) -> spec_fn(StateProof) -> bool {
    |p: StateProof| p.hash == hash
}

pub open spec fn gives_other(hash: u64) -> spec_fn(StateProof) -> bool {
    |p: StateProof| p.hash != hash
}

pub open spec fn node_of() -> spec_fn(StateProof) -> String {
    |p: StateProof| p.node
}

/// The nodes of some claims, in ascending order.
pub open spec fn nodes_sorted(
    proofs: Seq<StateProof>,
    p: spec_fn(StateProof) -> bool,
) -> Seq<String> {
    stably_sorted(proofs.filter(p).map_values(node_of()))
}

impl Ranked for String {
    open spec fn before(&self, other: &Self) -> bool {
        text_below(self@, other@)
    }

    fn goes_before(&self, other: &Self) -> (r: bool) {
        text_less(self.as_str(), other.as_str())
    }

    proof fn before_asymmetric(a: &Self, b: &Self) {
        lemma_text_order(a@, b@, a@);
    }

    proof fn before_negatively_transitive(a: &Self, b: &Self, c: &Self) {
        lemma_text_order(a@, b@, c@);
        lemma_text_order(a@, c@, b@);
        lemma_text_order(b@, a@, c@);
        lemma_text_order(b@, c@, a@);
        lemma_text_order(c@, b@, a@);
        lemma_text_order(c@, a@, b@);
    }
}

impl Agreement {
    /// Two replicas at least have been heard, and more than half of them agree.
    pub open spec fn conclusive(&self) -> bool {
        self.has_quorum && self.agree@.len() + self.dissent@.len() >= 2
    }

    /// What `this_node` should do.
    pub fn verdict(&self, this_node: &str) -> (v: Verdict)
        ensures
            match v {
                Verdict::Inconclusive => !self.conclusive() || (views(self.dissent@).contains(
                    this_node@,
                ) && self.quorum_hash is None),
                Verdict::Agreed => self.conclusive() && self.dissent@.len() == 0,
                Verdict::ResyncTo(h) => self.conclusive() && views(self.dissent@).contains(
                    this_node@,
                ) && self.quorum_hash == Some(h),
                Verdict::PeersDiverged(who) => self.conclusive() && self.dissent@.len() > 0
                    && !views(self.dissent@).contains(this_node@) && who@ == self.dissent@,
            },
    {
        let alone: bool = (self.agree.len() == 0 && self.dissent.len() <= 1) || (self.agree.len() == 1
            && self.dissent.len() == 0);
        if !self.has_quorum || alone {
            return Verdict::Inconclusive;
        }
        if self.dissent.len() == 0 {
            return Verdict::Agreed;
        }
        if lists_text(&self.dissent, this_node) {
            match self.quorum_hash {
                Some(h) => Verdict::ResyncTo(h),
                None => Verdict::Inconclusive,
            }
        } else {
            Verdict::PeersDiverged(clone_texts(&self.dissent))
        }
    }
}

fn nodes_where(proofs: &Vec<StateProof>, hash: u64, same: bool) -> (r: Vec<String>)
    ensures
        r@ == nodes_sorted(
            proofs@,
            if same {
                gives_hash(hash)
            } else {
                gives_other(hash)
            },
        ),
{
    let ghost p = if same {
        gives_hash(hash)
    } else {
        gives_other(hash)
    };
    let ghost f = node_of();
    let mut out: Vec<String> = Vec::new();
    let mut i: usize = 0;
    proof {
        reveal(Seq::filter);
        assert(proofs@.subrange(0, 0) =~= Seq::<StateProof>::empty());
        assert(out@ =~= proofs@.subrange(0, 0).filter(p).map_values(f));
    }
    while i < proofs.len()
        invariant
            i <= proofs@.len(),
            p == (if same {
                gives_hash(hash)
            } else {
                gives_other(hash)
            }),
            f == node_of(),
            out@ == proofs@.subrange(0, i as int).filter(p).map_values(f),
        decreases proofs@.len() - i,
    {
        let c = &proofs[i];
        let ghost seen = proofs@.subrange(0, i as int);
        proof {
            assert(proofs@.subrange(0, i + 1) =~= seen.push(*c));
            assert(p(*c) == ((c.hash == hash) == same));
            lemma_filter_push(seen, *c, p);
        }
        if (c.hash == hash) == same {
            out.push(c.node.clone());
            assert(out@ =~= seen.filter(p).push(*c).map_values(f));
        }
        i = i + 1;
    }
    assert(proofs@.subrange(0, i as int) =~= proofs@);
    sort_stably(out)
}

proof fn lemma_votes(proofs: Seq<StateProof>, n: int, hash: u64)
    requires
        0 <= n <= proofs.len(),
    ensures
        votes(proofs.subrange(0, n), hash) <= n,
    decreases n,
{
    if n > 0 {
        assert(proofs.subrange(0, n).drop_last() =~= proofs.subrange(0, n - 1));
        lemma_votes(proofs, n - 1, hash);
    }
}

/// What comparing some claims shows: nothing where there are none; else the most common hash, the
/// lowest of several, with who gave it and who gave another. It counts as agreed only when more than
/// half of the claims give it.
pub open spec fn is_agreement(a: Agreement, proofs: Seq<StateProof>) -> bool {
    &&& proofs.len() == 0 ==> a.quorum_hash is None && a.agree@.len() == 0 && a.dissent@.len() == 0
        && !a.has_quorum
    &&& proofs.len() > 0 ==> exists|winner: u64| #[trigger]
        is_winner(proofs, winner) && {
            &&& a.has_quorum == (2 * votes(proofs, winner) > proofs.len())
            &&& a.quorum_hash == (if a.has_quorum {
                Some(winner)
            } else {
                None
            })
            &&& a.agree@ == nodes_sorted(proofs, gives_hash(winner))
            &&& a.dissent@ == nodes_sorted(proofs, gives_other(winner))
        }
}

/// Compares the claims for one tick. The most common hash wins, the lowest of several; it counts as
/// agreed only when more than half of the claims give it, so that one against one accuses nobody.
pub fn agree(proofs: &Vec<StateProof>) -> (a: Agreement)
    ensures
        is_agreement(a, proofs@),
{
    if proofs.len() == 0 {
        return Agreement {
            quorum_hash: None,
            agree: Vec::new(),
            dissent: Vec::new(),
            has_quorum: false,
        };
    }
    let ghost all = proofs@;
    let mut counts: SortedMap<u64, usize> = SortedMap::new();
    let mut i: usize = 0;
    while i < proofs.len()
        invariant
            i <= all.len(),
            all == proofs@,
            counts.wf(),
            forall|h: u64| #[trigger]
                counts@.contains_key(h) <==> votes(all.subrange(0, i as int), h) > 0,
            forall|h: u64| #[trigger]
                counts@.contains_key(h) ==> counts@[h] == votes(all.subrange(0, i as int), h),
        decreases all.len() - i,
    {
        let hash: u64 = proofs[i].hash;
        let ghost before = counts@;
        proof {
            assert(all.subrange(0, i + 1).drop_last() =~= all.subrange(0, i as int));
            lemma_votes(all, i as int, hash);
        }
        let held: usize = match counts.get(&hash) {
            Some(n) => *n,
            None => 0,
        };
        assert(held == votes(all.subrange(0, i as int), hash)) by {
            assert(before.contains_key(hash) <==> votes(all.subrange(0, i as int), hash) > 0);
        }
        let _ = counts.insert(hash, held + 1);
        i = i + 1;
        proof {
            assert forall|h: u64| #[trigger]
                counts@.contains_key(h) <==> votes(all.subrange(0, i as int), h) > 0 by {
                assert(before.contains_key(h) <==> votes(all.subrange(0, i - 1), h) > 0);
            }
            assert forall|h: u64| #[trigger] counts@.contains_key(h) implies counts@[h] == votes(
                all.subrange(0, i as int),
                h,
            ) by {
                assert(before.contains_key(h) <==> votes(all.subrange(0, i - 1), h) > 0);
            }
        }
    }
    proof {
        assert(all.subrange(0, i as int) =~= all);
        counts.lemma_orders();
        assert(votes(all, all.last().hash) > 0);
        assert(counts@.contains_key(all.last().hash));
    }
    let ghost keys = counts.key_order();
    let ghost nums = counts.value_order();
    let mut winner: u64 = 0;
    let mut top: usize = 0;
    let mut k: usize = 0;
    while k < counts.len()
        invariant
            k <= keys.len(),
            counts.wf(),
            keys == counts.key_order(),
            nums == counts.value_order(),
            keys.len() == nums.len(),
            crate::order::ascending(keys),
            forall|j: int|
                #![trigger keys[j]]
                0 <= j < keys.len() ==> nums[j] == votes(all, keys[j]) && nums[j] > 0,
            k > 0 ==> top > 0 && top == votes(all, winner),
            k == 0 ==> top == 0,
            forall|j: int|
                #![trigger keys[j]]
                #![trigger nums[j]]
                0 <= j < k ==> nums[j] < top || (nums[j] == top && winner <= keys[j]),
            k > 0 ==> exists|j: int| 0 <= j < k && #[trigger] keys[j] == winner,
        decreases keys.len() - k,
    {
        let hash: u64 = counts.keys()[k];
        let c: usize = counts.values()[k];
        assert(keys[k as int] == hash && nums[k as int] == c);
        if c > top {
            winner = hash;
            top = c;
            assert(keys[k as int] == winner);
        } else {
            proof {
                assert(nums[k as int] == c && c > 0);
                assert(k > 0);
                let j = choose|j: int| 0 <= j < k && #[trigger] keys[j] == winner;
                crate::order::lemma_ascending_at(keys, j, k as int);
                assert(keys[j]@ < keys[k as int]@);
                assert(winner <= keys[k as int]);
            }
        }
        k = k + 1;
    }
    proof {
        assert(views(keys).to_set().contains(all.last().hash));
        assert(keys.len() > 0);
        assert forall|h: u64|
            #![trigger votes(all, h)]
            votes(all, h) < votes(all, winner) || (votes(all, h) == votes(all, winner) && winner
                <= h) by {
            if votes(all, h) > 0 {
                assert(counts@.contains_key(h));
                assert(views(keys).contains(h));
                let j = choose|j: int| 0 <= j < views(keys).len() && views(keys)[j] == h;
                assert(keys[j] == h);
            }
        }
        assert(is_winner(all, winner));
        lemma_votes(all, all.len() as int, winner);
    }
    let total: usize = proofs.len();
    let has_quorum: bool = top > total - top;
    Agreement {
        quorum_hash: if has_quorum {
            Some(winner)
        } else {
            None
        },
        agree: nodes_where(proofs, winner, true),
        dissent: nodes_where(proofs, winner, false),
        has_quorum,
    }
}

proof fn lemma_votes_disjoint(proofs: Seq<StateProof>, a: u64, b: u64)
    requires
        a != b,
    ensures
        votes(proofs, a) + votes(proofs, b) <= proofs.len(),
    decreases proofs.len(),
{
    if proofs.len() > 0 {
        lemma_votes_disjoint(proofs.drop_last(), a, b);
    }
}

proof fn lemma_votes_remove(p: Seq<StateProof>, j: int, hash: u64)
    requires
        0 <= j < p.len(),
    ensures
        votes(p, hash) == votes(p.remove(j), hash) + (if p[j].hash == hash {
            1nat
        } else {
            0nat
        }),
    decreases p.len(),
{
    if j == p.len() - 1 {
        assert(p.remove(j) =~= p.drop_last());
    } else {
        let rest = p.drop_last();
        lemma_votes_remove(rest, j, hash);
        let cut = p.remove(j);
        assert(cut.drop_last() =~= rest.remove(j));
        assert(cut.last() == p.last());
    }
}

/// The nodes of some claims, in the order of the claims.
spec fn nodes_in(p: Seq<StateProof>, f: spec_fn(StateProof) -> bool) -> Seq<String> {
    p.filter(f).map_values(node_of())
}

proof fn lemma_nodes_push(p: Seq<StateProof>, x: StateProof, f: spec_fn(StateProof) -> bool)
    ensures
        nodes_in(p.push(x), f) == (if f(x) {
            nodes_in(p, f).push(x.node)
        } else {
            nodes_in(p, f)
        }),
{
    lemma_filter_push(p, x, f);
    assert(p.filter(f).push(x).map_values(node_of()) =~= nodes_in(p, f).push(x.node));
}

proof fn lemma_nodes_remove(p: Seq<StateProof>, j: int, f: spec_fn(StateProof) -> bool)
    requires
        0 <= j < p.len(),
    ensures
        nodes_in(p, f).to_multiset() == (if f(p[j]) {
            nodes_in(p.remove(j), f).to_multiset().insert(p[j].node)
        } else {
            nodes_in(p.remove(j), f).to_multiset()
        }),
    decreases p.len(),
{
    broadcast use vstd::seq_lib::group_to_multiset_ensures;

    let rest = p.drop_last();
    let x = p.last();
    assert(p =~= rest.push(x));
    lemma_nodes_push(rest, x, f);
    if j == p.len() - 1 {
        assert(p.remove(j) =~= rest);
    } else {
        lemma_nodes_remove(rest, j, f);
        let cut = rest.remove(j);
        assert(p.remove(j) =~= cut.push(x));
        lemma_nodes_push(cut, x, f);
        let ms = nodes_in(cut, f).to_multiset();
        assert(ms.insert(p[j].node).insert(x.node) =~= ms.insert(x.node).insert(p[j].node));
    }
}

/// Permuted claims have the same votes and name the same nodes.
proof fn lemma_claims_permuted(p: Seq<StateProof>, q: Seq<StateProof>, f: spec_fn(StateProof) -> bool)
    requires
        p.to_multiset() == q.to_multiset(),
    ensures
        p.len() == q.len(),
        forall|h: u64| #[trigger] votes(p, h) == votes(q, h),
        nodes_in(p, f).to_multiset() == nodes_in(q, f).to_multiset(),
    decreases p.len(),
{
    broadcast use vstd::seq_lib::group_to_multiset_ensures;

    assert(p.len() == p.to_multiset().len() && q.len() == q.to_multiset().len());
    if p.len() > 0 {
        let x = p.last();
        assert(p.contains(x));
        assert(q.to_multiset().count(x) > 0);
        let j = choose|j: int| 0 <= j < q.len() && q[j] == x;
        assert(p =~= p.drop_last().push(x));
        assert(p.drop_last().to_multiset() =~= p.to_multiset().remove(x));
        lemma_claims_permuted(p.drop_last(), q.remove(j), f);
        lemma_nodes_push(p.drop_last(), x, f);
        lemma_nodes_remove(q, j, f);
        assert forall|h: u64| #[trigger] votes(p, h) == votes(q, h) by {
            lemma_votes_remove(q, j, h);
            assert(votes(p.drop_last(), h) == votes(q.remove(j), h));
        }
    } else {
        assert(p =~= q);
    }
}

proof fn lemma_nodes_sorted_permuted(
    p: Seq<StateProof>,
    q: Seq<StateProof>,
    f: spec_fn(StateProof) -> bool,
)
    requires
        p.to_multiset() == q.to_multiset(),
    ensures
        views(nodes_sorted(p, f)) == views(nodes_sorted(q, f)),
{
    lemma_claims_permuted(p, q, f);
    let (a, b) = (nodes_in(p, f), nodes_in(q, f));
    lemma_views_permuted(a, b);
    assert forall|x: String, y: String|
        a.contains(x) && a.contains(y) && #[trigger] tied(x, y) implies x@ == y@ by {
        lemma_text_order(x@, y@, x@);
    }
    law_sort_shows_alike(a, b);
}

/// What is agreed on does not depend on the order in which the claims were heard.
pub proof fn law_agreement_order_independent(
    p: Seq<StateProof>,
    q: Seq<StateProof>,
    a: Agreement,
    b: Agreement,
)
    requires
        p.to_multiset() == q.to_multiset(),
        is_agreement(a, p),
        is_agreement(b, q),
    ensures
        a.quorum_hash == b.quorum_hash,
        a.has_quorum == b.has_quorum,
        views(a.agree@) == views(b.agree@),
        views(a.dissent@) == views(b.dissent@),
{
    lemma_claims_permuted(p, q, gives_hash(0));
    if p.len() > 0 {
        let w = choose|w: u64| #[trigger]
            is_winner(p, w) && {
                &&& a.has_quorum == (2 * votes(p, w) > p.len())
                &&& a.quorum_hash == (if a.has_quorum {
                    Some(w)
                } else {
                    None
                })
                &&& a.agree@ == nodes_sorted(p, gives_hash(w))
                &&& a.dissent@ == nodes_sorted(p, gives_other(w))
            };
        let v = choose|v: u64| #[trigger]
            is_winner(q, v) && {
                &&& b.has_quorum == (2 * votes(q, v) > q.len())
                &&& b.quorum_hash == (if b.has_quorum {
                    Some(v)
                } else {
                    None
                })
                &&& b.agree@ == nodes_sorted(q, gives_hash(v))
                &&& b.dissent@ == nodes_sorted(q, gives_other(v))
            };
        assert(w == v) by {
            assert(votes(p, w) == votes(q, w) && votes(p, v) == votes(q, v));
        }
        lemma_nodes_sorted_permuted(p, q, gives_hash(w));
        lemma_nodes_sorted_permuted(p, q, gives_other(w));
    } else {
        assert(views(a.agree@) =~= views(b.agree@));
        assert(views(a.dissent@) =~= views(b.dissent@));
    }
}

proof fn lemma_nodes_split(p: Seq<StateProof>, w: u64)
    ensures
        nodes_in(p, gives_hash(w)).to_multiset().add(
            nodes_in(p, gives_other(w)).to_multiset(),
        ) == p.map_values(node_of()).to_multiset(),
    decreases p.len(),
{
    broadcast use vstd::seq_lib::group_to_multiset_ensures;

    if p.len() > 0 {
        let rest = p.drop_last();
        let x = p.last();
        assert(p =~= rest.push(x));
        lemma_nodes_split(rest, w);
        lemma_nodes_push(rest, x, gives_hash(w));
        lemma_nodes_push(rest, x, gives_other(w));
        assert(p.map_values(node_of()) =~= rest.map_values(node_of()).push(x.node));
        assert(nodes_in(p, gives_hash(w)).to_multiset().add(
            nodes_in(p, gives_other(w)).to_multiset(),
        ) =~= p.map_values(node_of()).to_multiset());
    } else {
        reveal(Seq::filter);
        assert(nodes_in(p, gives_hash(w)) =~= Seq::<String>::empty());
        assert(nodes_in(p, gives_other(w)) =~= Seq::<String>::empty());
        assert(p.map_values(node_of()) =~= Seq::<String>::empty());
        assert(nodes_in(p, gives_hash(w)).to_multiset().add(
            nodes_in(p, gives_other(w)).to_multiset(),
        ) =~= p.map_values(node_of()).to_multiset());
    }
}

/// Everyone who made a claim either agrees or dissents, once for each claim; both lists are in
/// ascending order.
pub proof fn law_agreement_accounts_for_all(p: Seq<StateProof>, a: Agreement)
    requires
        is_agreement(a, p),
    ensures
        (a.agree@ + a.dissent@).to_multiset() == p.map_values(node_of()).to_multiset(),
        in_order(a.agree@),
        in_order(a.dissent@),
{
    if p.len() > 0 {
        let w = choose|w: u64| #[trigger]
            is_winner(p, w) && a.agree@ == nodes_sorted(p, gives_hash(w)) && a.dissent@
                == nodes_sorted(p, gives_other(w));
        lemma_nodes_split(p, w);
        lemma_stably_sorted(nodes_in(p, gives_hash(w)));
        lemma_stably_sorted(nodes_in(p, gives_other(w)));
        vstd::seq_lib::lemma_multiset_commutative(a.agree@, a.dissent@);
    } else {
        assert(a.agree@ + a.dissent@ =~= p.map_values(node_of()));
    }
}

/// A hash that more than half of the replicas computed is the one that is agreed on: no minority of
/// liars overrules an honest majority.
pub proof fn law_majority_wins(proofs: Seq<StateProof>, honest: u64, winner: u64)
    requires
        2 * votes(proofs, honest) > proofs.len(),
        is_winner(proofs, winner),
    ensures
        winner == honest,
        2 * votes(proofs, winner) > proofs.len(),
{
    if winner != honest {
        lemma_votes_disjoint(proofs, honest, winner);
        assert(votes(proofs, honest) <= votes(proofs, winner));
    }
}

/// Two replicas that disagree reach no majority, whoever of them lies.
pub proof fn law_one_against_one(a: StateProof, b: StateProof, winner: u64)
    requires
        a.hash != b.hash,
    ensures
        !(2 * votes(seq![a, b], winner) > 2),
{
    let s = seq![a, b];
    assert(s.drop_last() =~= seq![a]);
    assert(seq![a].drop_last() =~= Seq::<StateProof>::empty());
    reveal_with_fuel(votes, 3);
}

/// The members have distinct ids.
pub open spec fn distinct(m: Seq<MemberView>) -> bool {
    forall|i: int, j: int|
        0 <= i < j < m.len() ==> (#[trigger] m[i]).node_id != (#[trigger] m[j]).node_id
}

/// How many members are primaries.
pub open spec fn primaries_in(m: Seq<MemberView>) -> nat
    decreases m.len(),
{
    if m.len() == 0 {
        0
    } else {
        primaries_in(m.drop_last()) + (if m.last().role == ReplicaRole::Primary {
            1nat
        } else {
            0nat
        })
    }
}

pub open spec fn all_healthy(m: Seq<MemberView>) -> bool {
    forall|i: int| 0 <= i < m.len() ==> (#[trigger] m[i]).healthy
}

proof fn lemma_filter_same<T>(s: Seq<T>, p: spec_fn(T) -> bool, q: spec_fn(T) -> bool)
    requires
        forall|i: int| 0 <= i < s.len() ==> p(#[trigger] s[i]) == q(s[i]),
    ensures
        s.filter(p) == s.filter(q),
    decreases s.len(),
{
    reveal(Seq::filter);
    if s.len() > 0 {
        let rest = s.drop_last();
        assert forall|i: int| 0 <= i < rest.len() implies p(#[trigger] rest[i]) == q(rest[i]) by {
            assert(rest[i] == s[i]);
        }
        lemma_filter_same(rest, p, q);
        assert(p(s[s.len() - 1]) == q(s[s.len() - 1]));
    }
}

pub open spec fn healthy_one() -> spec_fn(MemberView) -> bool {
    |x: MemberView| x.healthy
}

/// What is left when the unhealthy members are taken out.
proof fn lemma_survivors(m: Seq<MemberView>)
    requires
        distinct(m),
    ensures
        ({
            let s = m.filter(healthy_one());
            &&& distinct(s)
            &&& all_healthy(s)
            &&& s.len() == healthy_in(m)
            &&& primaries_in(s) <= primaries_in(m)
            &&& forall|i: int|
                0 <= i < m.len() && (#[trigger] m[i]).healthy ==> s.contains(m[i])
            &&& forall|i: int| 0 <= i < s.len() ==> m.contains(#[trigger] s[i])
            &&& (forall|i: int|
                0 <= i < m.len() && (#[trigger] m[i]).role == ReplicaRole::Primary
                    ==> m[i].healthy) ==> primaries_in(s) == primaries_in(m)
        }),
    decreases m.len(),
{
    reveal(Seq::filter);
    if m.len() > 0 {
        let rest = m.drop_last();
        let x = m.last();
        assert(distinct(rest)) by {
            assert forall|i: int, j: int| 0 <= i < j < rest.len() implies (
            #[trigger] rest[i]).node_id != (#[trigger] rest[j]).node_id by {
                assert(m[i].node_id != m[j].node_id);
            }
        }
        lemma_survivors(rest);
        let s1 = rest.filter(healthy_one());
        let s = m.filter(healthy_one());
        if x.healthy {
            assert(s == s1.push(x));
            assert(s.drop_last() =~= s1);
        }
        assert forall|i: int, j: int| 0 <= i < j < s.len() implies (#[trigger] s[i]).node_id != (
        #[trigger] s[j]).node_id by {
            if j < s1.len() {
                assert(s1[i].node_id != s1[j].node_id);
            } else {
                assert(rest.contains(s1[i]));
                let k = choose|k: int| 0 <= k < rest.len() && rest[k] == s1[i];
                assert(m[k].node_id != m[m.len() - 1].node_id);
            }
        }
        assert forall|i: int| 0 <= i < m.len() && (#[trigger] m[i]).healthy implies s.contains(
            m[i],
        ) by {
            if i < rest.len() {
                assert(rest[i] == m[i]);
                assert(s1.contains(rest[i]));
                let k = choose|k: int| 0 <= k < s1.len() && s1[k] == rest[i];
                assert(s[k] == m[i]);
            } else {
                assert(s[s.len() - 1] == x);
            }
        }
        assert forall|i: int| 0 <= i < s.len() implies m.contains(#[trigger] s[i]) by {
            if i < s1.len() {
                assert(rest.contains(s1[i]));
                let k = choose|k: int| 0 <= k < rest.len() && rest[k] == s1[i];
                assert(m[k] == s[i]);
            } else {
                assert(m[m.len() - 1] == x);
            }
        }
        if forall|i: int|
            0 <= i < m.len() && (#[trigger] m[i]).role == ReplicaRole::Primary ==> m[i].healthy {
            assert forall|i: int|
                0 <= i < rest.len() && (
                #[trigger] rest[i]).role == ReplicaRole::Primary implies rest[i].healthy by {
                assert(rest[i] == m[i]);
            }
            assert(m[m.len() - 1] == x);
        }
    }
}

proof fn lemma_dead(m: Seq<MemberView>)
    requires
        distinct(m),
    ensures
        forall|i: int|
            0 <= i < m.len() ==> (dead_ids(m).contains((#[trigger] m[i]).node_id) <==> !m[i].healthy),
{
    let p = |x: MemberView| !x.healthy;
    let f = |x: MemberView| x.node_id;
    let dead = m.filter(p);
    broadcast use vstd::seq_lib::group_filter_ensures;

    assert forall|i: int| 0 <= i < m.len() implies (dead_ids(m).contains(
        (#[trigger] m[i]).node_id,
    ) <==> !m[i].healthy) by {
        if !m[i].healthy {
            assert(p(m[i]));
            assert(dead.contains(m[i]));
            let k = choose|k: int| 0 <= k < dead.len() && dead[k] == m[i];
            assert(dead_ids(m)[k] == m[i].node_id);
        }
        if dead_ids(m).contains(m[i].node_id) {
            let k = choose|k: int|
                0 <= k < dead_ids(m).len() && dead_ids(m)[k] == m[i].node_id;
            assert(dead[k].node_id == m[i].node_id);
            assert(p(dead[k]));
            assert(dead.contains(dead[k]));
            m.lemma_filter_contains_rev(p, dead[k]);
            let j = choose|j: int| 0 <= j < m.len() && m[j] == dead[k];
            if j < i {
                assert(m[j].node_id != m[i].node_id);
            } else if i < j {
                assert(m[i].node_id != m[j].node_id);
            }
        }
    }
}

proof fn lemma_promoted(m: Seq<MemberView>, id: Seq<char>)
    requires
        distinct(m),
        all_healthy(m),
    ensures
        distinct(promoted(m, Some(id))),
        all_healthy(promoted(m, Some(id))),
        promoted(m, Some(id)).len() == m.len(),
        primaries_in(promoted(m, Some(id))) == (if is_member(m, id) {
            1nat
        } else {
            0nat
        }),
        forall|n: Seq<char>| #[trigger] is_member(promoted(m, Some(id)), n) <==> is_member(m, n),
    decreases m.len(),
{
    let p = promoted(m, Some(id));
    assert forall|i: int, j: int| 0 <= i < j < p.len() implies (#[trigger] p[i]).node_id != (
    #[trigger] p[j]).node_id by {
        assert(m[i].node_id != m[j].node_id);
    }
    assert forall|i: int| 0 <= i < p.len() implies (#[trigger] p[i]).healthy by {
        assert(m[i].healthy);
    }
    assert forall|n: Seq<char>| #[trigger] is_member(p, n) <==> is_member(m, n) by {
        if is_member(m, n) {
            let i = choose|i: int| 0 <= i < m.len() && (#[trigger] m[i]).node_id == n;
            assert(p[i].node_id == n);
        }
        if is_member(p, n) {
            let i = choose|i: int| 0 <= i < p.len() && (#[trigger] p[i]).node_id == n;
            assert(m[i].node_id == n);
        }
    }
    if m.len() > 0 {
        let rest = m.drop_last();
        let x = m.last();
        assert(distinct(rest)) by {
            assert forall|i: int, j: int| 0 <= i < j < rest.len() implies (
            #[trigger] rest[i]).node_id != (#[trigger] rest[j]).node_id by {
                assert(m[i].node_id != m[j].node_id);
            }
        }
        assert(all_healthy(rest)) by {
            assert forall|i: int| 0 <= i < rest.len() implies (#[trigger] rest[i]).healthy by {
                assert(m[i].healthy);
            }
        }
        lemma_promoted(rest, id);
        assert(p.drop_last() =~= promoted(rest, Some(id)));
        if is_member(rest, id) {
            let i = choose|i: int| 0 <= i < rest.len() && (#[trigger] rest[i]).node_id == id;
            assert(m[i].node_id == id);
            assert(m[i].node_id != m[m.len() - 1].node_id);
        } else if is_member(m, id) {
            let i = choose|i: int| 0 <= i < m.len() && (#[trigger] m[i]).node_id == id;
            if i < rest.len() {
                assert(rest[i].node_id == id);
            }
        } else {
            assert(m[m.len() - 1].node_id != id);
        }
    }
}

proof fn lemma_all_admitted(m: Seq<MemberView>, nodes: Seq<Seq<char>>, n: nat, now: u64)
    requires
        n <= nodes.len(),
        distinct(m),
        all_healthy(m),
        nodes.no_duplicates(),
        forall|i: int| 0 <= i < nodes.len() ==> !is_member(m, #[trigger] nodes[i]),
    ensures
        ({
            let after = all_admitted(m, nodes, n, now);
            &&& distinct(after)
            &&& all_healthy(after)
            &&& after.len() == m.len() + n
            &&& primaries_in(after) == primaries_in(m)
            &&& after == m + nodes.take(n as int).map_values(|id: Seq<char>| newcomer(id, now))
            &&& forall|i: int|
                n <= i < nodes.len() ==> !is_member(after, #[trigger] nodes[i])
        }),
    decreases n,
{
    if n == 0 {
        assert(m + nodes.take(0).map_values(|id: Seq<char>| newcomer(id, now)) =~= m);
    } else {
        lemma_all_admitted(m, nodes, (n - 1) as nat, now);
        let before = all_admitted(m, nodes, (n - 1) as nat, now);
        let after = all_admitted(m, nodes, n, now);
        let x = newcomer(nodes[n - 1], now);
        assert(!is_member(before, nodes[n - 1]));
        assert(after == before.push(x));
        assert(after.drop_last() =~= before);
        let f = |id: Seq<char>| newcomer(id, now);
        assert(m + nodes.take(n as int).map_values(f) =~= (m + nodes.take(n - 1).map_values(
            f,
        )).push(x));
        assert forall|i: int, j: int| 0 <= i < j < after.len() implies (
        #[trigger] after[i]).node_id != (#[trigger] after[j]).node_id by {
            if j < before.len() {
                assert(before[i].node_id != before[j].node_id);
            } else {
                assert(before[i].node_id != nodes[n - 1]);
            }
        }
        assert forall|i: int| n <= i < nodes.len() implies !is_member(
            after,
            #[trigger] nodes[i],
        ) by {
            if is_member(after, nodes[i]) {
                let k = choose|k: int|
                    0 <= k < after.len() && (#[trigger] after[k]).node_id == nodes[i];
                if k < before.len() {
                    assert(before[k].node_id == nodes[i]);
                    assert(is_member(before, nodes[i]));
                } else {
                    assert(nodes[i] != nodes[n - 1]);
                }
            }
        }
    }
}

/// The ids of the candidates are distinct.
pub open spec fn distinct_candidates(c: Seq<ReplicaCandidate>) -> bool {
    forall|i: int, j: int|
        0 <= i < j < c.len() ==> (#[trigger] c[i]).node_id@ != (#[trigger] c[j]).node_id@
}

proof fn lemma_fresh(m: Seq<MemberView>, candidates: Seq<ReplicaCandidate>)
    requires
        distinct_candidates(candidates),
    ensures
        ({
            let f = fresh_of(m, candidates);
            &&& forall|i: int, j: int|
                0 <= i < j < f.len() ==> (#[trigger] f[i]).node@ != (#[trigger] f[j]).node@
            &&& forall|i: int|
                0 <= i < f.len() ==> !is_member(m, (#[trigger] f[i]).node@) && exists|k: int|
                    0 <= k < candidates.len() && (#[trigger] candidates[k]).node_id@ == f[i].node@
        }),
    decreases candidates.len(),
{
    reveal(Seq::filter);
    if candidates.len() > 0 {
        let rest = candidates.drop_last();
        let x = candidates.last();
        assert forall|i: int, j: int| 0 <= i < j < rest.len() implies (
        #[trigger] rest[i]).node_id@ != (#[trigger] rest[j]).node_id@ by {
            assert(candidates[i].node_id@ != candidates[j].node_id@);
        }
        lemma_fresh(m, rest);
        let f1 = fresh_of(m, rest);
        let f = fresh_of(m, candidates);
        let p = is_fresh_for(m);
        if p(x) {
            assert(candidates.filter(p) == rest.filter(p).push(x));
            assert(f =~= f1.push(Fresh { suitability: suitability_of(x), node: x.node_id }));
        } else {
            assert(f =~= f1);
        }
        assert forall|i: int| 0 <= i < f.len() implies !is_member(m, (#[trigger] f[i]).node@)
            && exists|k: int|
            0 <= k < candidates.len() && (#[trigger] candidates[k]).node_id@ == f[i].node@ by {
            if i < f1.len() {
                assert(f[i] == f1[i]);
                let k = choose|k: int|
                    0 <= k < rest.len() && (#[trigger] rest[k]).node_id@ == f1[i].node@;
                assert(candidates[k].node_id@ == f[i].node@);
            } else {
                assert(candidates[candidates.len() - 1].node_id@ == f[i].node@);
            }
        }
        assert forall|i: int, j: int| 0 <= i < j < f.len() implies (#[trigger] f[i]).node@ != (
        #[trigger] f[j]).node@ by {
            if j < f1.len() {
                assert(f1[i].node@ != f1[j].node@);
            } else {
                assert(f[i] == f1[i]);
                let k = choose|k: int|
                    0 <= k < rest.len() && (#[trigger] rest[k]).node_id@ == f1[i].node@;
                assert(candidates[k].node_id@ != candidates[candidates.len() - 1].node_id@);
            }
        }
    }
}

/// Sorting keeps distinct nodes distinct.
proof fn lemma_fresh_sorted(f: Seq<Fresh>)
    requires
        forall|i: int, j: int|
            0 <= i < j < f.len() ==> (#[trigger] f[i]).node@ != (#[trigger] f[j]).node@,
    ensures
        ({
            let s = stably_sorted(f);
            forall|i: int, j: int|
                0 <= i < j < s.len() ==> (#[trigger] s[i]).node@ != (#[trigger] s[j]).node@
        }),
    decreases f.len(),
{
    if f.len() > 0 {
        let rest = f.drop_last();
        let x = f.last();
        assert forall|i: int, j: int| 0 <= i < j < rest.len() implies (#[trigger] rest[i]).node@
            != (#[trigger] rest[j]).node@ by {
            assert(f[i].node@ != f[j].node@);
        }
        lemma_fresh_sorted(rest);
        crate::sort::lemma_stably_sorted(rest);
        let before = stably_sorted(rest);
        let s = stably_sorted(f);
        let at = crate::sort::slot(before, x);
        crate::sort::lemma_slot(before, x);
        assert forall|i: int| 0 <= i < before.len() implies (#[trigger] before[i]).node@
            != x.node@ by {
            crate::sort::lemma_sorted_contains(rest, before[i]);
            assert(before.contains(before[i]));
            let j = choose|j: int| 0 <= j < rest.len() && rest[j] == before[i];
            assert(f[j].node@ != f[f.len() - 1].node@);
        }
        assert forall|i: int, j: int| 0 <= i < j < s.len() implies (#[trigger] s[i]).node@ != (
        #[trigger] s[j]).node@ by {
            let a = if i < at {
                i
            } else {
                i - 1
            };
            let b = if j < at {
                j
            } else {
                j - 1
            };
            if i != at {
                assert(s[i] == before[a]);
            }
            if j != at {
                assert(s[j] == before[b]);
            }
        }
    }
}

proof fn lemma_some_heir(m: Seq<MemberView>, candidates: Seq<ReplicaCandidate>, who: int)
    requires
        0 <= who < m.len(),
        may_inherit(m[who]),
    ensures
        exists|at: int| is_heir(m, candidates, at),
    decreases m.len(),
{
    let rest = m.drop_last();
    let last = m.len() - 1;
    assert forall|j: int| 0 <= j < rest.len() implies #[trigger] m[j] == rest[j] by {
    }
    if exists|j: int| 0 <= j < rest.len() && may_inherit(#[trigger] rest[j]) {
        let w = choose|j: int| 0 <= j < rest.len() && may_inherit(#[trigger] rest[j]);
        lemma_some_heir(rest, candidates, w);
        let at = choose|at: int| is_heir(rest, candidates, at);
        let (held, new) = (m[at].node_id, m[last].node_id);
        lemma_ahead(candidates, new, held, new);
        if may_inherit(m[last]) && ahead(candidates, new, held) {
            assert forall|j: int| 0 <= j < m.len() && may_inherit(#[trigger] m[j]) implies !ahead(
                candidates,
                m[j].node_id,
                new,
            ) by {
                lemma_ahead(candidates, m[j].node_id, held, new);
                if j < last {
                    assert(may_inherit(rest[j]));
                }
            }
            assert(is_heir(m, candidates, last));
        } else {
            assert forall|j: int| 0 <= j < m.len() && may_inherit(#[trigger] m[j]) implies !ahead(
                candidates,
                m[j].node_id,
                held,
            ) by {
                if j < last {
                    assert(may_inherit(rest[j]));
                }
            }
            assert(is_heir(m, candidates, at));
        }
    } else {
        assert(who == last) by {
            if who < last {
                assert(may_inherit(rest[who]));
            }
        }
        assert forall|j: int| 0 <= j < m.len() && may_inherit(#[trigger] m[j]) implies j
            == last by {
            if j < last {
                assert(may_inherit(rest[j]));
            }
        }
        lemma_ahead(candidates, m[last].node_id, m[last].node_id, m[last].node_id);
        assert(is_heir(m, candidates, last));
    }
}

/// The member that leads once the plan is carried out: the primary while it is healthy, else the one
/// that is promoted.
pub open spec fn leader(
    m: Seq<MemberView>,
    candidates: Seq<ReplicaCandidate>,
    k: usize,
) -> Option<Seq<char>> {
    if primary_ok(m) {
        Some(m[first_primary(m)->0].node_id)
    } else {
        planned(m, candidates, k).promote
    }
}

/// Recovery. As long as one member is healthy, carrying the plan out leaves a set that holds the healthy
/// members in their order and after them the nodes that the region is copied to, as new backups. All
/// are healthy, no id occurs twice, and exactly one is primary: the one that was while it is healthy,
/// else the one that is promoted. There are as many replicas as were asked for, or as the fresh
/// candidates allow.
pub proof fn law_recovery(
    m: Seq<MemberView>,
    candidates: Seq<ReplicaCandidate>,
    k: usize,
    now: u64,
)
    requires
        distinct(m),
        primaries_in(m) == 1,
        healthy_in(m) > 0,
        distinct_candidates(candidates),
    ensures
        ({
            let plan = planned(m, candidates, k);
            let after = applied(m, plan, now);
            &&& after == promoted(m.filter(healthy_one()), plan.promote) + plan.copy_to.map_values(
                |id: Seq<char>| newcomer(id, now),
            )
            &&& distinct(after)
            &&& all_healthy(after)
            &&& primaries_in(after) == 1
            &&& leader(m, candidates, k) is Some
            &&& forall|i: int|
                0 <= i < after.len() ==> ((#[trigger] after[i]).role == ReplicaRole::Primary
                    <==> after[i].node_id == leader(m, candidates, k)->0)
            &&& after.len() == healthy_in(m) + smaller(
                missing(m, k),
                fresh_of(m, candidates).len(),
            )
            &&& healthy_in(after) == after.len()
            &&& fresh_of(m, candidates).len() >= missing(m, k) ==> healthy_in(after) >= k
        }),
{
    let plan = planned(m, candidates, k);
    lemma_dead(m);
    let stays = |x: MemberView| !plan.drop.contains(x.node_id);
    assert forall|i: int| 0 <= i < m.len() implies stays(#[trigger] m[i]) == healthy_one()(
        m[i],
    ) by {
        assert(dead_ids(m).contains(m[i].node_id) <==> !m[i].healthy);
    }
    lemma_filter_same(m, stays, healthy_one());
    lemma_survivors(m);
    let left = kept(m, plan.drop);
    assert(left == m.filter(healthy_one()));
    lemma_first_primary(m);
    lemma_one_primary(m);
    let ready = promoted(left, plan.promote);
    if primary_ok(m) {
        let i = first_primary(m)->0;
        assert forall|j: int|
            0 <= j < m.len() && (#[trigger] m[j]).role == ReplicaRole::Primary implies m[j].healthy by {
            assert(j == i);
        }
        assert(ready == left);
    } else {
        lemma_some_healthy(m);
        let w = choose|w: int| 0 <= w < m.len() && (#[trigger] m[w]).healthy;
        assert(m[w].role == ReplicaRole::Backup);
        lemma_some_heir(m, candidates, w);
        let at = choose|at: int| is_heir(m, candidates, at);
        assert(plan.promote == Some(m[at].node_id));
        assert(left.contains(m[at]));
        let q = choose|q: int| 0 <= q < left.len() && left[q] == m[at];
        assert(left[q].node_id == m[at].node_id);
        lemma_promoted(left, m[at].node_id);
    }
    let f = fresh_of(m, candidates);
    lemma_fresh(m, candidates);
    lemma_fresh_sorted(f);
    crate::sort::lemma_stably_sorted(f);
    let nodes = plan.copy_to;
    let best = stably_sorted(f);
    assert forall|i: int, j: int|
        0 <= i < nodes.len() && 0 <= j < nodes.len() && i != j implies nodes[i] != nodes[j] by {
        if i < j {
            assert(best[i].node@ != best[j].node@);
        } else {
            assert(best[j].node@ != best[i].node@);
        }
    }
    assert forall|i: int| 0 <= i < nodes.len() implies !is_member(ready, #[trigger] nodes[i]) by {
        crate::sort::lemma_sorted_contains(f, best[i]);
        assert(best.contains(best[i]));
        let j = choose|j: int| 0 <= j < f.len() && f[j] == best[i];
        assert(!is_member(m, f[j].node@));
        if is_member(ready, nodes[i]) {
            let a = choose|a: int| 0 <= a < ready.len() && (#[trigger] ready[a]).node_id == nodes[i];
            assert(left[a].node_id == nodes[i]);
            assert(m.contains(left[a]));
            let b = choose|b: int| 0 <= b < m.len() && m[b] == left[a];
            assert(m[b].node_id == nodes[i]);
        }
    }
    lemma_all_admitted(ready, nodes, nodes.len(), now);
    assert(nodes.take(nodes.len() as int) =~= nodes);
    let after = applied(m, plan, now);
    lemma_healthy_all(after);
    let lead = leader(m, candidates, k)->0;
    assert forall|i: int| 0 <= i < after.len() implies ((
    #[trigger] after[i]).role == ReplicaRole::Primary <==> after[i].node_id == lead) by {
        if i < ready.len() {
            assert(after[i] == ready[i]);
            assert(m.contains(left[i]));
            let b = choose|b: int| 0 <= b < m.len() && m[b] == left[i];
            if primary_ok(m) {
                let f = first_primary(m)->0;
                if b < f {
                    assert(m[b].node_id != m[f].node_id);
                } else if f < b {
                    assert(m[f].node_id != m[b].node_id);
                }
            }
        } else {
            let n = nodes[i - ready.len()];
            assert(after[i] == newcomer(n, now));
            assert(!is_member(ready, n));
            let q = if primary_ok(m) {
                m[first_primary(m)->0]
            } else {
                m[choose|at: int| is_heir(m, candidates, at)]
            };
            assert(left.contains(q));
            let c = choose|c: int| 0 <= c < left.len() && left[c] == q;
            assert(ready[c].node_id == lead);
        }
    }
}

proof fn lemma_healthy_all(m: Seq<MemberView>)
    requires
        all_healthy(m),
    ensures
        healthy_in(m) == m.len(),
    decreases m.len(),
{
    if m.len() > 0 {
        assert(m[m.len() - 1].healthy);
        assert(all_healthy(m.drop_last())) by {
            assert forall|i: int| 0 <= i < m.drop_last().len() implies (
            #[trigger] m.drop_last()[i]).healthy by {
                assert(m[i].healthy);
            }
        }
        lemma_healthy_all(m.drop_last());
    }
}

proof fn lemma_some_healthy(m: Seq<MemberView>)
    requires
        healthy_in(m) > 0,
    ensures
        exists|w: int| 0 <= w < m.len() && (#[trigger] m[w]).healthy,
    decreases m.len(),
{
    if m.last().healthy {
        assert(m[m.len() - 1].healthy);
    } else {
        lemma_some_healthy(m.drop_last());
        let w = choose|w: int| 0 <= w < m.drop_last().len() && (#[trigger] m.drop_last()[w]).healthy;
        assert(m[w].healthy);
    }
}

proof fn lemma_one_primary(m: Seq<MemberView>)
    requires
        primaries_in(m) <= 1,
    ensures
        forall|i: int, j: int|
            0 <= i < j < m.len() && (#[trigger] m[i]).role == ReplicaRole::Primary ==> (
            #[trigger] m[j]).role == ReplicaRole::Backup,
        primaries_in(m) == 1 ==> first_primary(m) is Some,
        primaries_in(m) == 0 ==> forall|i: int|
            0 <= i < m.len() ==> (#[trigger] m[i]).role == ReplicaRole::Backup,
    decreases m.len(),
{
    if m.len() > 0 {
        let rest = m.drop_last();
        lemma_one_primary(rest);
        assert forall|j: int| 0 <= j < rest.len() implies (#[trigger] m[j]) == rest[j] by {
        }
        if m.last().role == ReplicaRole::Primary {
            assert(primaries_in(rest) == 0);
        }
    }
}

/// What a score is made of. Where the distance and the round trip are `d` and `t`, sixteen times the score is
/// `64 000 / (1 + d) + 3200 / (20 + t)`, and sixteen, and one for each spare core up to sixteen.
pub proof fn law_score_in_figures(d: u32, t: u32, cores: u32)
    ensures
        ({
            let s = Suitability::Reachable { in_game_dist: d, rtt_ms: t, free_cores: cores };
            let (p, q) = (1 + d as int, 20 + t as int);
            let c = if cores <= 16 { cores as int } else { 16 };
            &&& s.den() == p * q
            &&& s.num() == 64_000 * q + 3_200 * p + 16 * (p * q) + c * (p * q)
        }),
{
    let (p, q) = (1 + d as int, 20 + t as int);
    let c = counted_cores(cores);
    assert((16 + c) * (p * q) == 16 * (p * q) + c * (p * q)) by (nonlinear_arith);
}

/// Who is the better replica, other things being the same: the one whose player is nearer, the one with the shorter round trip,
/// the one with more spare cores, up to sixteen. A node that can be reached beats one that nothing is known of, and that one beats
/// a node that cannot be reached.
pub proof fn law_what_scores_higher(d: u32, e: u32, t: u32, u: u32, cores: u32, more: u32)
    requires
        d < e,
        t < u,
        cores < more,
    ensures
        scores_above(
            Suitability::Reachable { in_game_dist: d, rtt_ms: t, free_cores: cores },
            Suitability::Reachable { in_game_dist: e, rtt_ms: t, free_cores: cores },
        ),
        scores_above(
            Suitability::Reachable { in_game_dist: d, rtt_ms: t, free_cores: cores },
            Suitability::Reachable { in_game_dist: d, rtt_ms: u, free_cores: cores },
        ),
        scores_above(
            Suitability::Reachable { in_game_dist: d, rtt_ms: t, free_cores: more },
            Suitability::Reachable { in_game_dist: d, rtt_ms: t, free_cores: cores },
        ) <==> cores < 16,
        scores_above(
            Suitability::Reachable { in_game_dist: d, rtt_ms: t, free_cores: cores },
            Suitability::Unlisted,
        ),
        scores_above(Suitability::Unlisted, Suitability::Unreachable),
        scores_above(
            Suitability::Reachable { in_game_dist: d, rtt_ms: t, free_cores: cores },
            Suitability::Unreachable,
        ),
{
    let (p, pp, q, qq) = (1 + d as int, 1 + e as int, 20 + t as int, 20 + u as int);
    let (c, cc) = (counted_cores(cores), counted_cores(more));
    let n = 64_000 * q + 3_200 * p;
    lemma_product_positive(p, q);
    assert((64_000 * q + 3_200 * p + (16 + c) * (p * q)) * (pp * q) - (64_000 * q + 3_200 * pp + (16 + c)
        * (pp * q)) * (p * q) == 64_000 * (q * q) * (pp - p)) by {
        lemma_nearer_by(p, pp, q, 16 + c);
    }
    assert(64_000 * (q * q) * (pp - p) > 0) by (nonlinear_arith)
        requires
            q >= 1,
            pp > p,
    ;
    assert((64_000 * q + 3_200 * p + (16 + c) * (p * q)) * (p * qq) - (64_000 * qq + 3_200 * p + (16 + c)
        * (p * qq)) * (p * q) == 3_200 * (p * p) * (qq - q)) by {
        lemma_quicker_by(p, q, qq, 16 + c);
    }
    assert(3_200 * (p * p) * (qq - q) > 0) by (nonlinear_arith)
        requires
            p >= 1,
            qq > q,
    ;
    let s = p * q;
    assert((n + (16 + cc) * s) * s - (n + (16 + c) * s) * s == (cc - c) * (s * s)) by (nonlinear_arith);
    assert(s * s > 0) by (nonlinear_arith)
        requires
            s > 0,
    ;
    assert((cc - c) * (s * s) > 0 <==> cc > c) by (nonlinear_arith)
        requires
            s * s > 0,
    ;
    assert((16 + c) * s > 0) by (nonlinear_arith)
        requires
            s > 0,
            c >= 0,
    ;
    let one = Suitability::Reachable { in_game_dist: d, rtt_ms: t, free_cores: cores };
    assert(one.den() == s && one.num() > 0);
    assert((-1) * s < 0);
}

proof fn lemma_product_positive(p: int, q: int)
    requires
        p >= 1,
        q >= 1,
    ensures
        p * q >= 1,
{
    assert(p * q >= 1) by (nonlinear_arith)
        requires
            p >= 1,
            q >= 1,
    ;
}

proof fn lemma_nearer_by(p: int, pp: int, q: int, k: int)
    ensures
        (64_000 * q + 3_200 * p + k * (p * q)) * (pp * q) - (64_000 * q + 3_200 * pp + k * (pp * q)) * (p
            * q) == 64_000 * (q * q) * (pp - p),
{
    let (a, b) = (pp * q, p * q);
    assert((64_000 * q + 3_200 * p + k * b) * a == 64_000 * (q * a) + 3_200 * (p * a) + k * (b * a))
        by (nonlinear_arith);
    assert((64_000 * q + 3_200 * pp + k * a) * b == 64_000 * (q * b) + 3_200 * (pp * b) + k * (a * b))
        by (nonlinear_arith);
    assert(a * b == b * a) by (nonlinear_arith);
    assert(p * a == pp * b) by (nonlinear_arith)
        requires
            a == pp * q,
            b == p * q,
    ;
    assert(q * a - q * b == (q * q) * (pp - p)) by (nonlinear_arith)
        requires
            a == pp * q,
            b == p * q,
    ;
    assert(64_000 * (q * a) - 64_000 * (q * b) == 64_000 * ((q * q) * (pp - p)));
    assert(64_000 * ((q * q) * (pp - p)) == 64_000 * (q * q) * (pp - p)) by (nonlinear_arith);
}

proof fn lemma_quicker_by(p: int, q: int, qq: int, k: int)
    ensures
        (64_000 * q + 3_200 * p + k * (p * q)) * (p * qq) - (64_000 * qq + 3_200 * p + k * (p * qq)) * (p
            * q) == 3_200 * (p * p) * (qq - q),
{
    let (a, b) = (p * qq, p * q);
    assert((64_000 * q + 3_200 * p + k * b) * a == 64_000 * (q * a) + 3_200 * (p * a) + k * (b * a))
        by (nonlinear_arith);
    assert((64_000 * qq + 3_200 * p + k * a) * b == 64_000 * (qq * b) + 3_200 * (p * b) + k * (a * b))
        by (nonlinear_arith);
    assert(a * b == b * a) by (nonlinear_arith);
    assert(q * a == qq * b) by (nonlinear_arith)
        requires
            a == p * qq,
            b == p * q,
    ;
    assert(p * a - p * b == (p * p) * (qq - q)) by (nonlinear_arith)
        requires
            a == p * qq,
            b == p * q,
    ;
    assert(3_200 * (p * a) - 3_200 * (p * b) == 3_200 * ((p * p) * (qq - q)));
    assert(3_200 * ((p * p) * (qq - q)) == 3_200 * (p * p) * (qq - q)) by (nonlinear_arith);
}

/// A member that has been silent for longer than the timeout is no longer healthy; one that has not stays as it was.
pub proof fn law_silence(m: MemberView, now: u64, timeout: u64)
    ensures
        now > m.last_seen_tick + timeout ==> !aged(m, now, timeout).healthy,
        now <= m.last_seen_tick + timeout ==> aged(m, now, timeout) == m,
        aged(m, now, timeout).node_id == m.node_id && aged(m, now, timeout).role == m.role && aged(
            m,
            now,
            timeout,
        ).last_seen_tick == m.last_seen_tick,
{
}

/// A heartbeat makes its sender healthy as of now, and touches nobody else; one from a stranger does nothing.
pub proof fn law_heartbeats(m: Seq<MemberView>, node: Seq<char>, now: u64, i: int)
    requires
        distinct(m),
        0 <= i < m.len(),
    ensures
        observed(m, node, now).len() == m.len(),
        m[i].node_id == node ==> observed(m, node, now)[i] == (MemberView {
            last_seen_tick: now,
            healthy: true,
            ..m[i]
        }),
        m[i].node_id != node ==> observed(m, node, now)[i] == m[i],
{
    lemma_first_member(m, node);
    if m[i].node_id == node {
        let f = first_member(m, node)->0;
        assert(m[f].node_id == node);
        assert(f == i);
    }
}

/// A node that is admitted is a healthy backup, behind the members that there are; a member is not admitted twice.
pub proof fn law_admission(m: Seq<MemberView>, node: Seq<char>, now: u64)
    ensures
        (forall|i: int| 0 <= i < m.len() ==> (#[trigger] m[i]).node_id != node) ==> {
            let after = admitted(m, node, now);
            &&& after.len() == m.len() + 1
            &&& after.drop_last() == m
            &&& after.last() == (MemberView {
                node_id: node,
                role: ReplicaRole::Backup,
                last_seen_tick: now,
                healthy: true,
            })
        },
        (exists|i: int| 0 <= i < m.len() && (#[trigger] m[i]).node_id == node) ==> admitted(
            m,
            node,
            now,
        ) == m,
{
    assert(m.push(newcomer(node, now)).drop_last() =~= m);
}

/// Who takes over from a lost primary: a healthy backup such that no other healthy backup scores higher; of equal ones the one with
/// the lowest id. Each is judged by its last entry among the candidates.
pub proof fn law_heir_is_the_best_backup(
    m: Seq<MemberView>,
    candidates: Seq<ReplicaCandidate>,
    at: int,
    j: int,
)
    requires
        is_heir(m, candidates, at),
        0 <= j < m.len(),
        m[j].healthy,
        m[j].role == ReplicaRole::Backup,
    ensures
        m[at].healthy && m[at].role == ReplicaRole::Backup,
        !scores_above(
            suitability_for(candidates, m[j].node_id),
            suitability_for(candidates, m[at].node_id),
        ),
        !scores_above(
            suitability_for(candidates, m[at].node_id),
            suitability_for(candidates, m[j].node_id),
        ) ==> !text_below(m[j].node_id, m[at].node_id),
        heir(m, candidates) == Some(m[at].node_id),
{
    assert(may_inherit(m[j]));
    assert(!ahead(candidates, m[j].node_id, m[at].node_id));
    let other = choose|b: int| is_heir(m, candidates, b);
    lemma_heir_unique(m, candidates, at, other);
}

/// What counts of a node is its last entry: a later one takes its place, and those of others do not matter.
pub proof fn law_last_entry_counts(candidates: Seq<ReplicaCandidate>, c: ReplicaCandidate, node: Seq<char>)
    ensures
        suitability_for(Seq::empty(), node) == Suitability::Unlisted,
        c.node_id@ == node && c.alive ==> suitability_for(candidates.push(c), node) == (
        Suitability::Reachable {
            in_game_dist: c.in_game_dist,
            rtt_ms: match c.rtt_ms {
                Some(ms) => ms,
                None => 120,
            },
            free_cores: c.free_cores,
        }),
        c.node_id@ == node && !c.alive ==> suitability_for(candidates.push(c), node)
            == Suitability::Unreachable,
        c.node_id@ != node ==> suitability_for(candidates.push(c), node) == suitability_for(
            candidates,
            node,
        ),
{
    assert(candidates.push(c).drop_last() =~= candidates);
}

/// Where the region is copied to: as many nodes as are missing to the number that is asked for, or as there are. Each can be reached
/// and is no member yet; and they come the best first.
pub proof fn law_copies_go_to_the_best(m: Seq<MemberView>, candidates: Seq<ReplicaCandidate>, k: usize, i: int, j: int)
    requires
        0 <= i < j < fresh_of(m, candidates).len(),
    ensures
        ({
            let best = stably_sorted(fresh_of(m, candidates));
            &&& best.len() == fresh_of(m, candidates).len()
            &&& !scores_above(best[j].suitability, best[i].suitability)
            &&& !scores_above(best[i].suitability, best[j].suitability) ==> !text_below(
                best[j].node@,
                best[i].node@,
            )
            &&& i < copies(m, candidates, k).len() ==> copies(m, candidates, k)[i] == best[i].node@
            &&& copies(m, candidates, k).len() == (if missing(m, k) < best.len() {
                missing(m, k)
            } else {
                best.len()
            })
        }),
        healthy_in(m) <= k ==> healthy_in(m) + missing(m, k) == k,
        healthy_in(m) >= k ==> missing(m, k) == 0,
{
    let f = fresh_of(m, candidates);
    lemma_stably_sorted(f);
    let best = stably_sorted(f);
    assert(!best[j].before(&best[i]));
}

/// A candidate can receive a copy exactly where it can be reached and is no member yet.
pub proof fn law_who_can_receive(m: Seq<MemberView>, candidates: Seq<ReplicaCandidate>, c: ReplicaCandidate)
    ensures
        c.alive && (forall|i: int| 0 <= i < m.len() ==> (#[trigger] m[i]).node_id != c.node_id@)
            ==> fresh_of(m, candidates.push(c)) == fresh_of(m, candidates).push(
            Fresh { suitability: suitability_of(c), node: c.node_id },
        ),
        !c.alive || (exists|i: int| 0 <= i < m.len() && (#[trigger] m[i]).node_id == c.node_id@)
            ==> fresh_of(m, candidates.push(c)) == fresh_of(m, candidates),
{
    let p = is_fresh_for(m);
    lemma_filter_push(candidates, c, p);
    if p(c) {
        assert(fresh_of(m, candidates.push(c)) =~= fresh_of(m, candidates).push(
            Fresh { suitability: suitability_of(c), node: c.node_id },
        ));
    }
}

/// The healthy members are counted one by one.
pub proof fn law_health_is_counted(m: Seq<MemberView>, x: MemberView)
    ensures
        healthy_in(Seq::empty()) == 0,
        x.healthy ==> healthy_in(m.push(x)) == healthy_in(m) + 1,
        !x.healthy ==> healthy_in(m.push(x)) == healthy_in(m),
{
    assert(m.push(x).drop_last() =~= m);
}

/// While the primary is healthy nobody is promoted; and those that are retired are exactly the members that are not healthy.
pub proof fn law_plans(m: Seq<MemberView>, candidates: Seq<ReplicaCandidate>, k: usize, i: int)
    requires
        distinct(m),
        0 <= i < m.len(),
    ensures
        m[i].role == ReplicaRole::Primary && m[i].healthy && primaries_in(m) == 1 ==> planned(
            m,
            candidates,
            k,
        ).promote is None,
        planned(m, candidates, k).drop.contains(m[i].node_id) <==> !m[i].healthy,
{
    lemma_dead(m);
    lemma_first_primary(m);
    if primaries_in(m) == 1 {
        lemma_one_primary(m);
    }
    assert(dead_ids(m).contains(m[i].node_id) <==> !m[i].healthy);
}

/// A vote is counted for the state that it is for.
pub proof fn law_votes_are_counted(p: Seq<StateProof>, x: StateProof, hash: u64)
    ensures
        votes(Seq::empty(), hash) == 0,
        x.hash == hash ==> votes(p.push(x), hash) == votes(p, hash) + 1,
        x.hash != hash ==> votes(p.push(x), hash) == votes(p, hash),
{
    assert(p.push(x).drop_last() =~= p);
}

/// What an agreement says. A state is agreed on only where more than half of the claims are for it. Then those who claim it agree, and
/// all others dissent.
pub proof fn law_agreements_need_a_majority(a: Agreement, p: Seq<StateProof>, h: u64, i: int)
    requires
        is_agreement(a, p),
        0 <= i < p.len(),
        a.quorum_hash == Some(h),
    ensures
        2 * votes(p, h) > p.len(),
        a.has_quorum,
        p[i].hash == h ==> a.agree@.contains(p[i].node),
        p[i].hash != h ==> a.dissent@.contains(p[i].node),
        a.agree@.len() == votes(p, h),
        a.agree@.len() + a.dissent@.len() == p.len(),
{
    let w = choose|w: u64| #[trigger]
        is_winner(p, w) && {
            &&& a.has_quorum == (2 * votes(p, w) > p.len())
            &&& a.quorum_hash == (if a.has_quorum {
                Some(w)
            } else {
                None
            })
            &&& a.agree@ == nodes_sorted(p, gives_hash(w))
            &&& a.dissent@ == nodes_sorted(p, gives_other(w))
        };
    assert(w == h);
    lemma_listed(p, gives_hash(h), i);
    lemma_listed(p, gives_other(h), i);
    lemma_stably_sorted(nodes_in(p, gives_hash(h)));
    lemma_stably_sorted(nodes_in(p, gives_other(h)));
    lemma_votes_filtered(p, h);
}

proof fn lemma_listed(p: Seq<StateProof>, f: spec_fn(StateProof) -> bool, i: int)
    requires
        0 <= i < p.len(),
    ensures
        f(p[i]) ==> nodes_sorted(p, f).contains(p[i].node),
{
    if f(p[i]) {
        assert(p.contains(p[i]));
        crate::sort::lemma_filter_holds(p, f, p[i]);
        let k = choose|k: int| 0 <= k < p.filter(f).len() && p.filter(f)[k] == p[i];
        let nodes = p.filter(f).map_values(node_of());
        assert(nodes[k] == p[i].node);
        assert(nodes.contains(p[i].node));
        crate::sort::lemma_sorted_contains(nodes, p[i].node);
    }
}

proof fn lemma_votes_filtered(p: Seq<StateProof>, h: u64)
    ensures
        p.filter(gives_hash(h)).len() == votes(p, h),
        p.filter(gives_other(h)).len() + votes(p, h) == p.len(),
    decreases p.len(),
{
    reveal(Seq::filter);
    if p.len() > 0 {
        lemma_votes_filtered(p.drop_last(), h);
    }
}

} // verus!
