//! Status effects: what a hit does to a ship besides damage, for a while.
//!
//! A ship has at most one effect of a kind. A second one leaves the stronger and the longer of the two, so
//! that it does not matter in which order hits are applied. Effects end at a tick, not at a time of day.
//! Magnitudes are counted in thousandths.
use vstd::prelude::*;
use vstd::string::*;

use crate::text::{lemma_text_order, text_below, text_less};

verus! {

/// The prime of the digest.
pub const DIGEST_PRIME: u64 = 0x0000_0100_0000_01b3;

/// What the digest of an effect starts from.
pub const DIGEST_SEED: u64 = 0x9e37_79b9_7f4a_7c15;

/// A kind of effect.
#[derive(Debug, Clone, Copy, PartialEq, Eq, Hash, Structural)]
pub enum StatusKind {
    /// No thrust, no fire, no shield regeneration.
    Emp,
    /// Damage to the hull every tick.
    Burn,
    /// Less speed.
    Slow,
    /// Velocity bleeds away.
    Stasis,
    /// Faster and stronger fire.
    Overcharge,
}

/// A number for each kind, for the wire and for the order of effects.
pub open spec fn code_of(k: StatusKind) -> u8 {
    match k {
        StatusKind::Emp => 0,
        StatusKind::Burn => 1,
        StatusKind::Slow => 2,
        StatusKind::Stasis => 3,
        StatusKind::Overcharge => 4,
    }
}

impl StatusKind {
    /// Does the ship gain by it?
    pub fn is_buff(self) -> (r: bool)
        ensures
            r == (self is Overcharge),
    {
        match self {
            StatusKind::Overcharge => true,
            StatusKind::Emp => false,
            StatusKind::Burn => false,
            StatusKind::Slow => false,
            StatusKind::Stasis => false,
        }
    }

    pub fn code(self) -> (c: u8)
        ensures
            c == code_of(self),
    {
        match self {
            StatusKind::Emp => 0,
            StatusKind::Burn => 1,
            StatusKind::Slow => 2,
            StatusKind::Stasis => 3,
            StatusKind::Overcharge => 4,
        }
    }
}

/// An effect on a ship.
#[derive(Debug, PartialEq)]
pub struct StatusEffect {
    pub kind: StatusKind,
    /// The tick from which on it is over.
    pub until: u64,
    /// How strong it is, in thousandths.
    pub magnitude: i32,
    /// Who inflicted it; empty for nobody.
    pub source: String,
}

/// What there is to know of an effect besides its kind.
pub struct Strength {
    pub until: u64,
    pub magnitude: i32,
    pub source: Seq<char>,
}

/// The effects on a ship.
#[derive(Debug, PartialEq)]
pub struct StatusStack {
    pub effects: Vec<StatusEffect>,
}

/// The effect of a kind among some effects.
pub open spec fn effect_at(effects: Seq<StatusEffect>, kind: StatusKind, i: int) -> bool {
    0 <= i < effects.len() && effects[i].kind == kind
}

pub open spec fn strength_of(e: StatusEffect) -> Strength {
    Strength { until: e.until, magnitude: e.magnitude, source: e.source@ }
}

/// The kinds stand in the order of their codes, each once.
pub open spec fn codes_ascend(effects: Seq<StatusEffect>) -> bool {
    forall|i: int, j: int|
        0 <= i < j < effects.len() ==> code_of((#[trigger] effects[i]).kind) < code_of(
            (#[trigger] effects[j]).kind,
        )
}

/// The effects by kind.
pub open spec fn effects_by_kind(effects: Seq<StatusEffect>) -> Map<StatusKind, Strength>
    decreases effects.len(),
{
    if effects.len() == 0 {
        Map::empty()
    } else {
        effects_by_kind(effects.drop_last()).insert(
            effects.last().kind,
            strength_of(effects.last()),
        )
    }
}

/// An effect takes the credit from another of its kind: it is stronger, or as strong and of a source that
/// comes after the other in the order of texts.
pub open spec fn takes_credit(s: Strength, e: Strength) -> bool {
    s.magnitude > e.magnitude || (s.magnitude == e.magnitude && text_below(e.source, s.source))
}

/// The effects once a hit is applied: of two of a kind, the later end and the greater strength, and the
/// credit of the one that takes it.
pub open spec fn hit(
    m: Map<StatusKind, Strength>,
    kind: StatusKind,
    s: Strength,
) -> Map<StatusKind, Strength> {
    if m.contains_key(kind) {
        let e = m[kind];
        m.insert(
            kind,
            Strength {
                until: if s.until > e.until {
                    s.until
                } else {
                    e.until
                },
                magnitude: if s.magnitude > e.magnitude {
                    s.magnitude
                } else {
                    e.magnitude
                },
                source: if takes_credit(s, e) {
                    s.source
                } else {
                    e.source
                },
            },
        )
    } else {
        m.insert(kind, s)
    }
}

/// The effects that last beyond a tick.
pub open spec fn lasting(m: Map<StatusKind, Strength>, now: u64) -> Map<StatusKind, Strength> {
    m.restrict(Set::new(|k: StatusKind| m.contains_key(k) && now < m[k].until))
}

pub open spec fn magnitude_in(m: Map<StatusKind, Strength>, kind: StatusKind) -> int {
    if m.contains_key(kind) {
        m[kind].magnitude as int
    } else {
        0
    }
}

pub open spec fn clamped(v: int, lo: int, hi: int) -> int {
    if v < lo {
        lo
    } else if v > hi {
        hi
    } else {
        v
    }
}

/// A magnitude as the digest sees it: in 64ths, rounded to the nearest, halves away from zero.
pub open spec fn grains(magnitude: i32) -> int {
    if magnitude >= 0 {
        (magnitude * 64 + 500) / 1000
    } else {
        -((-magnitude * 64 + 500) / 1000)
    }
}

fn grains_of(magnitude: i32) -> (g: i64)
    ensures
        g == grains(magnitude),
{
    let m: i64 = magnitude as i64;
    if m >= 0 {
        (m * 64 + 500) / 1000
    } else {
        -((-m * 64 + 500) / 1000)
    }
}

/// The digest of one effect.
pub open spec fn effect_digest(e: StatusEffect) -> u64 {
    let a = (DIGEST_SEED ^ (code_of(e.kind) as u64)).wrapping_mul(DIGEST_PRIME);
    let b = (a ^ e.until).wrapping_mul(DIGEST_PRIME);
    (b ^ ((grains(e.magnitude) as i64) as u64)).wrapping_mul(DIGEST_PRIME)
}

/// The digest of some effects.
pub open spec fn digest_of(effects: Seq<StatusEffect>) -> u64
    decreases effects.len(),
{
    if effects.len() == 0 {
        0
    } else {
        digest_of(effects.drop_last()) ^ effect_digest(effects.last())
    }
}

proof fn lemma_by_kind(effects: Seq<StatusEffect>)
    requires
        codes_ascend(effects),
    ensures
        forall|k: StatusKind| #[trigger]
            effects_by_kind(effects).contains_key(k) <==> exists|i: int|
                #[trigger] effect_at(effects, k, i),
        forall|i: int|
            0 <= i < effects.len() ==> effects_by_kind(effects)[(#[trigger] effects[i]).kind]
                == strength_of(effects[i]),
    decreases effects.len(),
{
    if effects.len() > 0 {
        let rest = effects.drop_last();
        let last = effects.last();
        lemma_by_kind(rest);
        let n = effects.len() - 1;
        assert(effects[n] == last);
        assert forall|k: StatusKind| #[trigger]
            effects_by_kind(effects).contains_key(k) <==> exists|i: int| #[trigger]
            effect_at(effects, k, i) by {
            if effects_by_kind(rest).contains_key(k) {
                let i = choose|i: int| effect_at(rest, k, i);
                assert(effect_at(effects, k, i));
            }
            if k == last.kind {
                assert(effect_at(effects, k, n));
            }
            if exists|i: int| effect_at(effects, k, i) {
                let i = choose|i: int| effect_at(effects, k, i);
                if i < n {
                    assert(effect_at(rest, k, i));
                }
            }
        }
        assert forall|i: int| 0 <= i < effects.len() implies effects_by_kind(
            effects,
        )[(#[trigger] effects[i]).kind] == strength_of(effects[i]) by {
            if i < n {
                assert(rest[i] == effects[i]);
                assert(code_of(effects[i].kind) < code_of(effects[n].kind));
            }
        }
    }
}

/// The effects by kind determine the list of effects, strings aside.
proof fn lemma_kinds_match(a: Seq<StatusEffect>, b: Seq<StatusEffect>)
    requires
        codes_ascend(a),
        codes_ascend(b),
        effects_by_kind(a).dom() == effects_by_kind(b).dom(),
    ensures
        a.len() == b.len(),
        forall|i: int| 0 <= i < a.len() ==> (#[trigger] a[i]).kind == b[i].kind,
    decreases a.len(),
{
    lemma_by_kind(a);
    lemma_by_kind(b);
    if a.len() > 0 {
        let n = a.len() - 1;
        assert(effect_at(a, a[n].kind, n));
        assert(effects_by_kind(a).contains_key(a[n].kind));
        assert(effects_by_kind(b).contains_key(a[n].kind));
        let j = choose|j: int| effect_at(b, a[n].kind, j);
        let m = b.len() - 1;
        assert(effect_at(b, b[m].kind, m));
        assert(effects_by_kind(b).contains_key(b[m].kind));
        assert(effects_by_kind(a).contains_key(b[m].kind));
        let k = choose|k: int| effect_at(a, b[m].kind, k);
        if k < n {
            assert(code_of(a[k].kind) < code_of(a[n].kind));
        }
        if j < m {
            assert(code_of(b[j].kind) < code_of(b[m].kind));
        }
        assert(a[n].kind == b[m].kind);
        let ra = a.drop_last();
        let rb = b.drop_last();
        let last = a[n].kind;
        lemma_by_kind(ra);
        lemma_by_kind(rb);
        assert(!effects_by_kind(ra).contains_key(last)) by {
            if effects_by_kind(ra).contains_key(last) {
                let i = choose|i: int| effect_at(ra, last, i);
                assert(code_of(a[i].kind) < code_of(a[n].kind));
            }
        }
        assert(!effects_by_kind(rb).contains_key(last)) by {
            if effects_by_kind(rb).contains_key(last) {
                let i = choose|i: int| effect_at(rb, last, i);
                assert(code_of(b[i].kind) < code_of(b[m].kind));
            }
        }
        assert(effects_by_kind(ra).dom() =~= effects_by_kind(a).dom().remove(last));
        assert(effects_by_kind(rb).dom() =~= effects_by_kind(b).dom().remove(last));
        lemma_kinds_match(ra, rb);
        assert forall|i: int| 0 <= i < a.len() implies (#[trigger] a[i]).kind == b[i].kind by {
            if i < n {
                assert(ra[i].kind == rb[i].kind);
            }
        }
    } else if b.len() > 0 {
        assert(effect_at(b, b[0].kind, 0));
        assert(effects_by_kind(b).contains_key(b[0].kind));
        assert(effects_by_kind(a).contains_key(b[0].kind));
    }
}

impl View for StatusStack {
    type V = Map<StatusKind, Strength>;

    open spec fn view(&self) -> Map<StatusKind, Strength> {
        effects_by_kind(self.effects@)
    }
}

impl StatusStack {
    pub open spec fn wf(&self) -> bool {
        codes_ascend(self.effects@)
    }

    pub fn new() -> (s: Self)
        ensures
            s.wf(),
            s@ == Map::<StatusKind, Strength>::empty(),
    {
        StatusStack { effects: Vec::new() }
    }

    fn position(&self, kind: StatusKind) -> (r: Option<usize>)
        requires
            self.wf(),
        ensures
            match r {
                Some(i) => {
                    &&& effect_at(self.effects@, kind, i as int)
                    &&& self@.contains_key(kind)
                    &&& self@[kind] == strength_of(self.effects@[i as int])
                },
                None => !self@.contains_key(kind),
            },
    {
        proof {
            lemma_by_kind(self.effects@);
        }
        let mut i: usize = 0;
        while i < self.effects.len()
            invariant
                i <= self.effects@.len(),
                self.wf(),
                forall|j: int| 0 <= j < i ==> (#[trigger] self.effects@[j]).kind != kind,
            decreases self.effects@.len() - i,
        {
            if self.effects[i].kind == kind {
                proof {
                    lemma_by_kind(self.effects@);
                    assert(effect_at(self.effects@, kind, i as int));
                }
                return Some(i);
            }
            i = i + 1;
        }
        None
    }

    /// Applies an effect. Of two of a kind, the later end and the greater strength stay, with the
    /// credit of the stronger; of two that are equally strong, that of the source which comes after the
    /// other in the order of texts. Says whether anything changed.
    pub fn apply(&mut self, kind: StatusKind, until: u64, magnitude: i32, source: &str) -> (changed:
        bool)
        requires
            old(self).wf(),
        ensures
            final(self).wf(),
            final(self)@ == hit(
                old(self)@,
                kind,
                Strength { until, magnitude, source: source@ },
            ),
            changed == (!old(self)@.contains_key(kind) || until > old(self)@[kind].until
                || takes_credit(Strength { until, magnitude, source: source@ }, old(self)@[kind])),
            changed == (final(self)@ != old(self)@),
    {
        let ghost before = self.effects@;
        let ghost s = Strength { until, magnitude, source: source@ };
        proof {
            lemma_by_kind(before);
            lemma_hit_changes(self@, kind, s);
        }
        match self.position(kind) {
            Some(i) => {
                let e = &self.effects[i];
                let longer: bool = until > e.until;
                let stronger: bool = magnitude > e.magnitude;
                let credited: bool = stronger || (magnitude == e.magnitude && text_less(
                    e.source.as_str(),
                    source,
                ));
                let next = StatusEffect {
                    kind,
                    until: if longer {
                        until
                    } else {
                        e.until
                    },
                    magnitude: if stronger {
                        magnitude
                    } else {
                        e.magnitude
                    },
                    source: if credited {
                        source.to_string()
                    } else {
                        e.source.clone()
                    },
                };
                self.effects.set(i, next);
                proof {
                    lemma_replaced(before, i as int, next);
                    assert(self@ =~= hit(effects_by_kind(before), kind, s));
                }
                longer || credited
            },
            None => {
                let code: u8 = kind.code();
                let mut at: usize = 0;
                while at < self.effects.len() && self.effects[at].kind.code() < code
                    invariant
                        at <= self.effects@.len(),
                        self.effects@ == before,
                        code == code_of(kind),
                        forall|j: int|
                            0 <= j < at ==> code_of((#[trigger] before[j]).kind) < code,
                    decreases self.effects@.len() - at,
                {
                    at = at + 1;
                }
                let next = StatusEffect { kind, until, magnitude, source: source.to_string() };
                self.effects.insert(at, next);
                proof {
                    assert forall|j: int| 0 <= j < before.len() implies (#[trigger] before[j]).kind
                        != kind by {
                        if before[j].kind == kind {
                            assert(effect_at(before, kind, j));
                        }
                    }
                    lemma_inserted(before, at as int, next);
                    assert(self@ =~= hit(effects_by_kind(before), kind, s));
                }
                true
            },
        }
    }

    /// Drops the effects that are over at a tick.
    pub fn expire(&mut self, now: u64)
        requires
            old(self).wf(),
        ensures
            final(self).wf(),
            final(self)@ == lasting(old(self)@, now),
    {
        let ghost all = self.effects@;
        let mut i: usize = 0;
        proof {
            lemma_by_kind(all);
        }
        while i < self.effects.len()
            invariant
                i <= self.effects@.len(),
                codes_ascend(self.effects@),
                codes_ascend(all),
                forall|j: int| 0 <= j < i ==> now < (#[trigger] self.effects@[j]).until,
                forall|k: StatusKind| #[trigger]
                    effects_by_kind(self.effects@).contains_key(k) ==> effects_by_kind(
                        all,
                    ).contains_key(k) && effects_by_kind(self.effects@)[k] == effects_by_kind(
                        all,
                    )[k],
                forall|k: StatusKind| #[trigger]
                    effects_by_kind(all).contains_key(k) && now < effects_by_kind(all)[k].until
                        ==> effects_by_kind(self.effects@).contains_key(k),
            decreases self.effects@.len() - i,
        {
            if now < self.effects[i].until {
                i = i + 1;
            } else {
                let ghost before = self.effects@;
                proof {
                    lemma_by_kind(before);
                    lemma_removed(before, i as int);
                }
                let _ = self.effects.remove(i);
                proof {
                    assert(self.effects@ =~= before.remove(i as int));
                }
            }
        }
        proof {
            lemma_by_kind(self.effects@);
            let want = lasting(effects_by_kind(all), now);
            assert forall|k: StatusKind| #[trigger] self@.contains_key(k) <==> want.contains_key(
                k,
            ) by {
                if self@.contains_key(k) {
                    let j = choose|j: int| effect_at(self.effects@, k, j);
                    assert(now < self.effects@[j].until);
                }
            }
            assert(self@ =~= want);
        }
    }

    pub fn is_empty(&self) -> (r: bool)
        requires
            self.wf(),
        ensures
            r == (self@ == Map::<StatusKind, Strength>::empty()),
    {
        proof {
            lemma_by_kind(self.effects@);
            if self.effects@.len() > 0 {
                assert(effect_at(self.effects@, self.effects@[0].kind, 0));
                assert(self@.contains_key(self.effects@[0].kind));
            }
        }
        self.effects.len() == 0
    }

    pub fn has(&self, kind: StatusKind) -> (r: bool)
        requires
            self.wf(),
        ensures
            r == self@.contains_key(kind),
    {
        self.position(kind).is_some()
    }

    /// How strong the effect of a kind is; 0 where there is none.
    pub fn magnitude(&self, kind: StatusKind) -> (m: i32)
        requires
            self.wf(),
        ensures
            m == magnitude_in(self@, kind),
    {
        match self.position(kind) {
            Some(i) => self.effects[i].magnitude,
            None => 0,
        }
    }

    pub fn get(&self, kind: StatusKind) -> (r: Option<&StatusEffect>)
        requires
            self.wf(),
        ensures
            match r {
                Some(e) => e.kind == kind && self@.contains_key(kind) && self@[kind] == strength_of(
                    *e,
                ),
                None => !self@.contains_key(kind),
            },
    {
        match self.position(kind) {
            Some(i) => Some(&self.effects[i]),
            None => None,
        }
    }

    /// Can the ship thrust?
    pub fn can_thrust(&self) -> (r: bool)
        requires
            self.wf(),
        ensures
            r == !self@.contains_key(StatusKind::Emp),
    {
        !self.has(StatusKind::Emp)
    }

    /// Can the ship fire?
    pub fn can_fire(&self) -> (r: bool)
        requires
            self.wf(),
        ensures
            r == !self@.contains_key(StatusKind::Emp),
    {
        !self.has(StatusKind::Emp)
    }

    /// Does the shield regenerate?
    pub fn shield_regenerates(&self) -> (r: bool)
        requires
            self.wf(),
        ensures
            r == !self@.contains_key(StatusKind::Emp),
    {
        !self.has(StatusKind::Emp)
    }

    /// What is left of the ship's speed, in thousandths: never less than a twentieth, never more than
    /// all of it.
    pub fn mobility_mult(&self) -> (m: i64)
        requires
            self.wf(),
        ensures
            m == clamped(1000 - magnitude_in(self@, StatusKind::Slow), 50, 1000),
    {
        let m: i64 = 1000 - self.magnitude(StatusKind::Slow) as i64;
        if m < 50 {
            50
        } else if m > 1000 {
            1000
        } else {
            m
        }
    }

    /// What is left of the ship's velocity after a tick, in thousandths.
    pub fn stasis_retain(&self) -> (m: i64)
        requires
            self.wf(),
        ensures
            m == clamped(1000 - magnitude_in(self@, StatusKind::Stasis), 0, 1000),
    {
        let m: i64 = 1000 - self.magnitude(StatusKind::Stasis) as i64;
        if m < 0 {
            0
        } else if m > 1000 {
            1000
        } else {
            m
        }
    }

    /// The factor on fire rate and damage, in thousandths: never less than one.
    pub fn overcharge_mult(&self) -> (m: i64)
        requires
            self.wf(),
        ensures
            m == (if magnitude_in(self@, StatusKind::Overcharge) > 0 {
                1000 + magnitude_in(self@, StatusKind::Overcharge)
            } else {
                1000
            }),
    {
        let bonus: i32 = self.magnitude(StatusKind::Overcharge);
        if bonus > 0 {
            1000 + bonus as i64
        } else {
            1000
        }
    }

    /// A digest of the effects for the hash of the state. Who inflicted them is not part of it.
    pub fn hash(&self) -> (h: u64)
        ensures
            h == digest_of(self.effects@),
    {
        let mut acc: u64 = 0;
        let mut i: usize = 0;
        assert(self.effects@.subrange(0, 0) =~= Seq::<StatusEffect>::empty());
        while i < self.effects.len()
            invariant
                i <= self.effects@.len(),
                acc == digest_of(self.effects@.subrange(0, i as int)),
            decreases self.effects@.len() - i,
        {
            let e = &self.effects[i];
            assert(self.effects@.subrange(0, i + 1).drop_last() =~= self.effects@.subrange(
                0,
                i as int,
            ));
            let a: u64 = (DIGEST_SEED ^ (e.kind.code() as u64)).wrapping_mul(DIGEST_PRIME);
            let b: u64 = (a ^ e.until).wrapping_mul(DIGEST_PRIME);
            let h: u64 = (b ^ (grains_of(e.magnitude) as u64)).wrapping_mul(DIGEST_PRIME);
            acc = acc ^ h;
            i = i + 1;
        }
        assert(self.effects@.subrange(0, i as int) =~= self.effects@);
        acc
    }
}

proof fn lemma_replaced(s: Seq<StatusEffect>, at: int, e: StatusEffect)
    requires
        codes_ascend(s),
        0 <= at < s.len(),
        e.kind == s[at].kind,
    ensures
        codes_ascend(s.update(at, e)),
        effects_by_kind(s.update(at, e)) == effects_by_kind(s).insert(e.kind, strength_of(e)),
{
    let t = s.update(at, e);
    assert forall|i: int, j: int| 0 <= i < j < t.len() implies code_of((#[trigger] t[i]).kind)
        < code_of((#[trigger] t[j]).kind) by {
        assert(code_of(s[i].kind) < code_of(s[j].kind));
    }
    lemma_by_kind(s);
    lemma_by_kind(t);
    let want = effects_by_kind(s).insert(e.kind, strength_of(e));
    assert forall|k: StatusKind| #[trigger] effects_by_kind(t).contains_key(k)
        <==> want.contains_key(k) by {
        if effects_by_kind(t).contains_key(k) {
            let i = choose|i: int| effect_at(t, k, i);
            assert(effect_at(s, k, i));
        }
        if effects_by_kind(s).contains_key(k) {
            let i = choose|i: int| effect_at(s, k, i);
            assert(effect_at(t, k, i));
        }
        assert(effect_at(t, e.kind, at));
    }
    assert forall|k: StatusKind| #[trigger] effects_by_kind(t).contains_key(
        k,
    ) implies effects_by_kind(t)[k] == want[k] by {
        let i = choose|i: int| effect_at(t, k, i);
        assert(t[i].kind == k);
        if i != at {
            assert(s[i] == t[i]);
            if i < at {
                assert(code_of(t[i].kind) < code_of(t[at].kind));
            } else {
                assert(code_of(t[at].kind) < code_of(t[i].kind));
            }
        }
    }
    assert(effects_by_kind(t) =~= want);
}

proof fn lemma_inserted(s: Seq<StatusEffect>, at: int, e: StatusEffect)
    requires
        codes_ascend(s),
        0 <= at <= s.len(),
        forall|i: int| 0 <= i < at ==> code_of((#[trigger] s[i]).kind) < code_of(e.kind),
        at < s.len() ==> code_of(s[at].kind) >= code_of(e.kind),
        forall|i: int| 0 <= i < s.len() ==> (#[trigger] s[i]).kind != e.kind,
    ensures
        codes_ascend(s.insert(at, e)),
        effects_by_kind(s.insert(at, e)) == effects_by_kind(s).insert(e.kind, strength_of(e)),
{
    let t = s.insert(at, e);
    assert forall|i: int| at <= i < s.len() implies code_of((#[trigger] s[i]).kind) > code_of(
        e.kind,
    ) by {
        if at < i {
            assert(code_of(s[at].kind) < code_of(s[i].kind));
        }
    }
    assert forall|i: int, j: int| 0 <= i < j < t.len() implies code_of((#[trigger] t[i]).kind)
        < code_of((#[trigger] t[j]).kind) by {
        let a = if i < at {
            i
        } else {
            i - 1
        };
        let b = if j < at {
            j
        } else {
            j - 1
        };
        if i == at {
            assert(t[j] == s[b]);
        } else if j == at {
            assert(t[i] == s[a]);
        } else {
            assert(t[i] == s[a] && t[j] == s[b]);
        }
    }
    lemma_by_kind(s);
    lemma_by_kind(t);
    let want = effects_by_kind(s).insert(e.kind, strength_of(e));
    assert(t[at] == e);
    assert(effect_at(t, e.kind, at));
    assert forall|k: StatusKind| #[trigger] effects_by_kind(t).contains_key(k)
        <==> want.contains_key(k) by {
        if effects_by_kind(t).contains_key(k) && k != e.kind {
            let i = choose|i: int| effect_at(t, k, i);
            if i < at {
                assert(effect_at(s, k, i));
            } else {
                assert(effect_at(s, k, i - 1));
            }
        }
        if effects_by_kind(s).contains_key(k) {
            let i = choose|i: int| effect_at(s, k, i);
            if i < at {
                assert(effect_at(t, k, i));
            } else {
                assert(effect_at(t, k, i + 1));
            }
        }
    }
    assert forall|k: StatusKind| #[trigger] effects_by_kind(t).contains_key(
        k,
    ) implies effects_by_kind(t)[k] == want[k] by {
        let i = choose|i: int| effect_at(t, k, i);
        assert(t[i].kind == k);
        if i < at {
            assert(s[i] == t[i]);
        } else if i > at {
            assert(s[i - 1] == t[i]);
        }
    }
    assert(effects_by_kind(t) =~= want);
}

proof fn lemma_removed(s: Seq<StatusEffect>, at: int)
    requires
        codes_ascend(s),
        0 <= at < s.len(),
    ensures
        codes_ascend(s.remove(at)),
        effects_by_kind(s.remove(at)) == effects_by_kind(s).remove(s[at].kind),
{
    let t = s.remove(at);
    assert forall|i: int, j: int| 0 <= i < j < t.len() implies code_of((#[trigger] t[i]).kind)
        < code_of((#[trigger] t[j]).kind) by {
        let a = if i < at {
            i
        } else {
            i + 1
        };
        let b = if j < at {
            j
        } else {
            j + 1
        };
        assert(t[i] == s[a] && t[j] == s[b]);
    }
    lemma_by_kind(s);
    lemma_by_kind(t);
    let gone = s[at].kind;
    let want = effects_by_kind(s).remove(gone);
    assert forall|i: int| 0 <= i < t.len() implies (#[trigger] t[i]).kind != gone && t[i] == s[if i
        < at {
        i
    } else {
        i + 1
    }] by {
        if i < at {
            assert(code_of(s[i].kind) < code_of(s[at].kind));
        } else {
            assert(code_of(s[at].kind) < code_of(s[i + 1].kind));
        }
    }
    assert forall|k: StatusKind| #[trigger] effects_by_kind(t).contains_key(k)
        <==> want.contains_key(k) by {
        if effects_by_kind(t).contains_key(k) {
            let i = choose|i: int| effect_at(t, k, i);
            assert(t[i].kind == k);
            if i < at {
                assert(effect_at(s, k, i));
            } else {
                assert(effect_at(s, k, i + 1));
            }
        }
        if effects_by_kind(s).contains_key(k) && k != gone {
            let i = choose|i: int| effect_at(s, k, i);
            if i < at {
                assert(effect_at(t, k, i));
            } else {
                assert(effect_at(t, k, i - 1));
            }
        }
    }
    assert forall|k: StatusKind| #[trigger] effects_by_kind(t).contains_key(
        k,
    ) implies effects_by_kind(t)[k] == want[k] by {
        let i = choose|i: int| effect_at(t, k, i);
        assert(t[i].kind == k);
        if i < at {
            assert(s[i] == t[i]);
        } else {
            assert(s[i + 1] == t[i]);
        }
    }
    assert(effects_by_kind(t) =~= want);
}

/// A hit changes the effects where it is the first of its kind, lasts longer or takes the credit, and
/// nowhere else.
proof fn lemma_hit_changes(m: Map<StatusKind, Strength>, kind: StatusKind, s: Strength)
    ensures
        (hit(m, kind, s) != m) == (!m.contains_key(kind) || s.until > m[kind].until
            || takes_credit(s, m[kind])),
{
    let after = hit(m, kind, s);
    if m.contains_key(kind) {
        lemma_text_order(s.source, s.source, s.source);
        if after[kind] == m[kind] {
            assert(after =~= m);
        }
    } else {
        assert(after.contains_key(kind));
    }
}

/// Applying the same hit a second time changes nothing.
pub proof fn law_a_repeated_hit_is_harmless(
    m: Map<StatusKind, Strength>,
    kind: StatusKind,
    s: Strength,
)
    ensures
        hit(hit(m, kind, s), kind, s) == hit(m, kind, s),
{
    assert(hit(hit(m, kind, s), kind, s) =~= hit(m, kind, s));
}

/// The order in which two hits are applied does not matter.
pub proof fn law_hits_commute(
    m: Map<StatusKind, Strength>,
    k1: StatusKind,
    s1: Strength,
    k2: StatusKind,
    s2: Strength,
)
    ensures
        hit(hit(m, k1, s1), k2, s2) == hit(hit(m, k2, s2), k1, s1),
{
    lemma_text_order(s1.source, s2.source, s1.source);
    if m.contains_key(k1) {
        let e = m[k1];
        lemma_text_order(s1.source, s2.source, e.source);
        lemma_text_order(s1.source, e.source, s2.source);
        lemma_text_order(s2.source, s1.source, e.source);
        lemma_text_order(s2.source, e.source, s1.source);
        lemma_text_order(e.source, s1.source, s2.source);
        lemma_text_order(e.source, s2.source, s1.source);
    }
    assert(hit(hit(m, k1, s1), k2, s2) =~= hit(hit(m, k2, s2), k1, s1));
}

/// Two ships with the same effects have the same digest, whoever inflicted them.
pub proof fn law_equal_effects_hash_alike(a: StatusStack, b: StatusStack)
    requires
        a.wf(),
        b.wf(),
        a@.dom() == b@.dom(),
        forall|k: StatusKind| #[trigger]
            a@.contains_key(k) ==> a@[k].until == b@[k].until && a@[k].magnitude == b@[k].magnitude,
    ensures
        digest_of(a.effects@) == digest_of(b.effects@),
{
    lemma_kinds_match(a.effects@, b.effects@);
    lemma_by_kind(a.effects@);
    lemma_by_kind(b.effects@);
    assert forall|i: int| 0 <= i < a.effects@.len() implies effect_digest(#[trigger] a.effects@[i])
        == effect_digest(b.effects@[i]) by {
        let k = a.effects@[i].kind;
        assert(effect_at(a.effects@, k, i));
        assert(a@.contains_key(k));
        assert(b.effects@[i].kind == k);
    }
    lemma_digests(a.effects@, b.effects@);
}

proof fn lemma_digests(a: Seq<StatusEffect>, b: Seq<StatusEffect>)
    requires
        a.len() == b.len(),
        forall|i: int|
            0 <= i < a.len() ==> effect_digest(#[trigger] a[i]) == effect_digest(b[i]),
    ensures
        digest_of(a) == digest_of(b),
    decreases a.len(),
{
    if a.len() > 0 {
        let (ra, rb) = (a.drop_last(), b.drop_last());
        assert forall|i: int| 0 <= i < ra.len() implies effect_digest(#[trigger] ra[i])
            == effect_digest(rb[i]) by {
            assert(ra[i] == a[i] && rb[i] == b[i]);
        }
        lemma_digests(ra, rb);
        assert(effect_digest(a[a.len() - 1]) == effect_digest(b[b.len() - 1]));
    }
}

/// A hit on a ship that has the effect already lasts as long as the longer of the two and is as strong as the stronger;
/// on one that has not, it is the effect. No other effect changes, and none is lost.
pub proof fn law_hits_keep_the_worst(
    m: Map<StatusKind, Strength>,
    kind: StatusKind,
    other: StatusKind,
    s: Strength,
)
    requires
        other != kind,
    ensures
        hit(m, kind, s).contains_key(kind),
        !m.contains_key(kind) ==> hit(m, kind, s)[kind] == s,
        m.contains_key(kind) ==> {
            let e = m[kind];
            let h = hit(m, kind, s)[kind];
            &&& h.until >= e.until && h.until >= s.until && (h.until == e.until || h.until == s.until)
            &&& h.magnitude >= e.magnitude && h.magnitude >= s.magnitude && (h.magnitude == e.magnitude
                || h.magnitude == s.magnitude)
            &&& s.magnitude > e.magnitude ==> h.source == s.source
            &&& s.magnitude < e.magnitude ==> h.source == e.source
            &&& s.magnitude == e.magnitude ==> (h.source == s.source || h.source == e.source)
                && !text_below(h.source, s.source) && !text_below(h.source, e.source)
        },
        hit(m, kind, s).contains_key(other) <==> m.contains_key(other),
        m.contains_key(other) ==> hit(m, kind, s)[other] == m[other],
{
    if m.contains_key(kind) {
        lemma_text_order(s.source, m[kind].source, s.source);
        lemma_text_order(m[kind].source, s.source, m[kind].source);
    }
}

/// An effect lasts up to the tick before its end: at that tick it is gone, and until then it is as it was.
pub proof fn law_effects_run_out(m: Map<StatusKind, Strength>, now: u64, k: StatusKind)
    ensures
        lasting(m, now).contains_key(k) <==> m.contains_key(k) && m[k].until > now,
        lasting(m, now).contains_key(k) ==> lasting(m, now)[k] == m[k],
{
}

/// What effects do to a ship: a slow takes its strength off the speed, but leaves a twentieth; stasis takes its strength
/// off the velocity in every tick, down to a standstill; an overcharge adds its strength to the fire. Without the effect
/// nothing is lost or gained.
pub proof fn law_what_effects_do(s: StatusStack, mobility: i64, retain: i64, boost: i64)
    requires
        s.wf(),
        call_ensures(StatusStack::mobility_mult, (&s,), mobility),
        call_ensures(StatusStack::stasis_retain, (&s,), retain),
        call_ensures(StatusStack::overcharge_mult, (&s,), boost),
    ensures
        50 <= mobility <= 1000,
        0 <= retain <= 1000,
        1000 <= boost,
        !s@.contains_key(StatusKind::Slow) ==> mobility == 1000,
        !s@.contains_key(StatusKind::Stasis) ==> retain == 1000,
        !s@.contains_key(StatusKind::Overcharge) ==> boost == 1000,
        s@.contains_key(StatusKind::Slow) && 0 <= s@[StatusKind::Slow].magnitude <= 950 ==> mobility
            + s@[StatusKind::Slow].magnitude == 1000,
        s@.contains_key(StatusKind::Slow) && s@[StatusKind::Slow].magnitude > 950 ==> mobility == 50,
        s@.contains_key(StatusKind::Stasis) && 0 <= s@[StatusKind::Stasis].magnitude <= 1000 ==> retain
            + s@[StatusKind::Stasis].magnitude == 1000,
        s@.contains_key(StatusKind::Stasis) && s@[StatusKind::Stasis].magnitude > 1000 ==> retain == 0,
        s@.contains_key(StatusKind::Overcharge) && 0 <= s@[StatusKind::Overcharge].magnitude ==> boost
            - s@[StatusKind::Overcharge].magnitude == 1000,
{
}

/// The digest tells magnitudes apart to the nearest 64th, and treats both signs alike.
pub proof fn law_grains_are_nearest(m: i32)
    requires
        m > i32::MIN,
    ensures
        -500 <= 1000 * grains(m) - 64 * m <= 500,
        grains((-m) as i32) == -grains(m),
{
}

/// The digest of a ship is that of its effects one by one, in no order: one more is mixed in, and mixed in twice it is
/// out again.
pub proof fn law_digest_is_mixed(effects: Seq<StatusEffect>, e: StatusEffect)
    ensures
        digest_of(Seq::empty()) == 0,
        digest_of(effects.push(e)) == digest_of(effects) ^ effect_digest(e),
        digest_of(effects.push(e).push(e)) == digest_of(effects),
{
    assert(effects.push(e).drop_last() =~= effects);
    assert(effects.push(e).push(e).drop_last() =~= effects.push(e));
    let (a, b) = (digest_of(effects), effect_digest(e));
    let once = effects.push(e);
    assert(digest_of(once) == a ^ b);
    assert(digest_of(once.push(e)) == digest_of(once) ^ b) by {
        assert(once.push(e).last() == e);
    }
    assert((a ^ b) ^ b == a) by (bit_vector);
}

/// Every kind has a code of its own.
pub proof fn law_codes_are_distinct(a: StatusKind, b: StatusKind)
    ensures
        code_of(a) == code_of(b) <==> a == b,
        code_of(a) < 5,
{
}

} // verus!
