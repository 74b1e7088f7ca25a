//! Ships that grow by themselves: modules are docked to modules as a grammar allows, drawn by lot from a
//! seed.
//!
//! The same grammar and the same seed make the same ship on every node. A module's place is the chain of
//! steps from the core to it; composing the chain is left to whoever draws the ship. A ship goes straight to
//! the resolver of designs. Lengths are in thousandths, angles in millionths of a radian, chances in 2^24ths.
use vstd::prelude::*;
use vstd::string::*;

use crate::blueprint::{
    aggregate, flaw_of_design, is_craft_of, lemma_sound_design, parts_of_design, resolve_blueprint_into,
    stock_of, Catalog, Fault, FaultView, Frame, PartView, ResolvedCraft, ResolvedPart, Setting, SettingView, Stock,
    Transform2D, MAX_BLUEPRINT_DEPTH,
};
use crate::order::views;
use crate::replication::lists_text;
use crate::text::{digit, digit_char, same_text};

verus! {

/// No ship has more modules.
pub const MAX_MODULES: u32 = 96;

/// The stride of the generator.
pub const GAMMA: u64 = 0x9e37_79b9_7f4a_7c15;

/// A chance of one.
pub const CERTAIN: u32 = 0x100_0000;

/// A place on a module where others may dock.
#[derive(Debug, PartialEq)]
pub struct Slot {
    /// What the slot is for.
    pub tag: String,
    pub at: Transform2D,
    /// Dock a mirror image as well.
    pub mirror: bool,
    /// How far the modules stand apart where several dock.
    pub step: i32,
}

/// A module that ships are grown from.
#[derive(Debug, PartialEq)]
pub struct ModuleDef {
    pub id: String,
    /// The design that draws the module.
    pub blueprint: String,
    /// The roles that it can fill.
    pub tags: Vec<String>,
    pub slots: Vec<Slot>,
}

impl ModuleDef {
    pub fn has_tag(&self, tag: &str) -> (r: bool)
        ensures
            r == views(self.tags@).contains(tag@),
    {
        lists_text(&self.tags, tag)
    }
}

/// How a slot is filled.
#[derive(Debug, PartialEq)]
pub struct SlotRule {
    /// The slots that the rule is for.
    pub slot_tag: String,
    /// The roles that may dock.
    pub options: Vec<String>,
    /// The fewest and the most modules that dock.
    pub min: u32,
    pub max: u32,
    /// The chance that any do.
    pub chance: u32,
}

/// How ships are grown.
#[derive(Debug, PartialEq)]
pub struct ShipGrammar {
    pub id: String,
    pub name: String,
    /// The role of the core.
    pub root_tag: String,
    pub rules: Vec<SlotRule>,
    pub max_depth: u32,
}

/// The first rule for a slot.
pub open spec fn rule_of(rules: Seq<SlotRule>, tag: Seq<char>) -> Option<SlotRule>
    decreases rules.len(),
{
    if rules.len() == 0 {
        None
    } else {
        match rule_of(rules.drop_last(), tag) {
            Some(r) => Some(r),
            None => if rules.last().slot_tag@ == tag {
                Some(rules.last())
            } else {
                None
            },
        }
    }
}

proof fn lemma_rule_early(s: Seq<SlotRule>, tag: Seq<char>, n: int)
    requires
        0 <= n <= s.len(),
        rule_of(s.subrange(0, n), tag) is Some,
    ensures
        rule_of(s, tag) == rule_of(s.subrange(0, n), tag),
    decreases s.len(),
{
    if n < s.len() {
        assert(s.drop_last().subrange(0, n) =~= s.subrange(0, n));
        lemma_rule_early(s.drop_last(), tag, n);
    } else {
        assert(s.subrange(0, n) =~= s);
    }
}

impl ShipGrammar {
    fn rule_for(&self, slot_tag: &str) -> (r: Option<&SlotRule>)
        ensures
            match r {
                Some(rule) => rule_of(self.rules@, slot_tag@) == Some(*rule),
                None => rule_of(self.rules@, slot_tag@) is None,
            },
    {
        let mut i: usize = 0;
        assert(self.rules@.subrange(0, 0) =~= Seq::<SlotRule>::empty());
        while i < self.rules.len()
            invariant
                i <= self.rules@.len(),
                rule_of(self.rules@.subrange(0, i as int), slot_tag@) is None,
            decreases self.rules@.len() - i,
        {
            let ghost next = self.rules@.subrange(0, i + 1);
            assert(next.drop_last() =~= self.rules@.subrange(0, i as int));
            if same_text(self.rules[i].slot_tag.as_str(), slot_tag) {
                proof {
                    lemma_rule_early(self.rules@, slot_tag@, i + 1);
                }
                return Some(&self.rules[i]);
            }
            i = i + 1;
        }
        assert(self.rules@.subrange(0, i as int) =~= self.rules@);
        None
    }
}

/// A module of a ship: its design, and the steps from the core to it.
#[derive(Debug, PartialEq)]
pub struct GrownModule {
    pub blueprint: String,
    pub steps: Vec<Frame>,
}

pub struct GrownView {
    pub blueprint: Seq<char>,
    pub steps: Seq<Frame>,
}

impl View for GrownModule {
    type V = GrownView;

    open spec fn view(&self) -> GrownView {
        GrownView { blueprint: self.blueprint@, steps: self.steps@ }
    }
}

/// A ship that was grown.
#[derive(Debug, PartialEq)]
pub struct GeneratedShip {
    pub id: String,
    pub name: String,
    pub modules: Vec<GrownModule>,
    pub seed: u64,
    pub module_count: u32,
}

/// No module can be the core of the ship.
#[derive(Debug, PartialEq)]
pub struct NoRoot {
    pub grammar: String,
    pub root_tag: String,
}

impl NoRoot {
    /// The fault in words.
    pub fn message(&self) -> (s: String)
        ensures
            s@ == "grammar "@ + self.grammar@ + " has no module tagged '"@ + self.root_tag@
                + "' to root the ship"@,
    {
        let mut s: String = "grammar ".to_string();
        s.append(self.grammar.as_str());
        s.append(" has no module tagged '");
        s.append(self.root_tag.as_str());
        s.append("' to root the ship");
        s
    }
}

/// One output of the generator, from its state.
pub open spec fn mixed(state: u64) -> u64 {
    let a = (state ^ (state >> 30)).wrapping_mul(0xbf58_476d_1ce4_e5b9);
    let b = (a ^ (a >> 27)).wrapping_mul(0x94d0_49bb_1331_11eb);
    b ^ (b >> 31)
}

/// The state after one more draw.
pub open spec fn stepped(state: u64) -> u64 {
    state.wrapping_add(GAMMA)
}

/// What a draw gives.
pub open spec fn drawn(state: u64) -> u64 {
    mixed(stepped(state))
}

/// A generator of numbers that every node draws alike.
#[derive(Debug, Clone, Copy, PartialEq, Eq, Structural)]
pub struct Rng {
    pub state: u64,
}

impl Rng {
    pub fn new(seed: u64) -> (r: Self)
        ensures
            r.state == seed ^ GAMMA,
    {
        Rng { state: seed ^ GAMMA }
    }

    fn next_u64(&mut self) -> (v: u64)
        ensures
            v == drawn(old(self).state),
            final(self).state == stepped(old(self).state),
    {
        self.state = self.state.wrapping_add(GAMMA);
        let z: u64 = self.state;
        let a: u64 = (z ^ (z >> 30)).wrapping_mul(0xbf58_476d_1ce4_e5b9);
        let b: u64 = (a ^ (a >> 27)).wrapping_mul(0x94d0_49bb_1331_11eb);
        b ^ (b >> 31)
    }

    /// A number below `n`; 0 where there is none.
    pub fn below(&mut self, n: usize) -> (v: usize)
        ensures
            n == 0 ==> v == 0 && *final(self) == *old(self),
            n > 0 ==> v == drawn(old(self).state) as int % n as int && v < n
                && final(self).state == stepped(old(self).state),
    {
        if n == 0 {
            0
        } else {
            let d: u64 = self.next_u64();
            let r: u64 = d % (n as u64);
            assert(0 <= (d as int) % (n as int) < n) by (nonlinear_arith)
                requires
                    n > 0,
            ;
            r as usize
        }
    }

    /// A number below 2^24.
    pub fn unit(&mut self) -> (v: u32)
        ensures
            v == drawn(old(self).state) >> 40,
            v < CERTAIN,
            final(self).state == stepped(old(self).state),
    {
        let d: u64 = self.next_u64();
        assert(d >> 40 < 0x100_0000) by (bit_vector);
        (d >> 40) as u32
    }

    /// A number between two, both included; the lower one where they are not in order.
    pub fn range_u32(&mut self, a: u32, b: u32) -> (v: u32)
        ensures
            b <= a ==> v == a && *final(self) == *old(self),
            a < b ==> v == a + drawn(old(self).state) as int % (b - a + 1) && a <= v <= b
                && final(self).state == stepped(old(self).state),
    {
        if b <= a {
            a
        } else {
            let d: u64 = self.next_u64();
            let n: u64 = (b - a) as u64 + 1;
            let r: u64 = d % n;
            a + r as u32
        }
    }
}

/// The modules among the first `n` that fill one of some roles.
pub open spec fn filling(modules: Seq<ModuleDef>, roles: Seq<Seq<char>>, n: nat) -> Seq<usize>
    decreases n,
{
    if n == 0 {
        Seq::empty()
    } else {
        let before = filling(modules, roles, (n - 1) as nat);
        if fills(modules[n - 1], roles, roles.len()) {
            before.push((n - 1) as usize)
        } else {
            before
        }
    }
}

/// The module fills one of the first `n` roles.
pub open spec fn fills(m: ModuleDef, roles: Seq<Seq<char>>, n: nat) -> bool
    decreases n,
{
    n > 0 && (fills(m, roles, (n - 1) as nat) || views(m.tags@).contains(roles[n - 1]))
}

/// How far a ship has grown: the state of the generator and the modules so far.
pub struct Growth {
    pub rng: u64,
    pub modules: Seq<GrownView>,
}

pub open spec fn is_full(g: Growth) -> bool {
    g.modules.len() >= MAX_MODULES
}

/// The frame of the i-th module at a slot, or of its mirror image.
pub open spec fn slot_frame(s: Slot, i: int, mirrored: bool) -> Frame {
    Frame { x: (s.at.x + s.step * i) as i64, y: s.at.y as i64, rot: s.at.rot as i64, mirrored }
}

/// How many modules a rule docks, and the state of the generator after the draw.
pub open spec fn count_drawn(r: SlotRule, rng: u64) -> (nat, u64) {
    let most = if r.max < r.min {
        r.min
    } else {
        r.max
    };
    if most <= r.min {
        (r.min as nat, rng)
    } else {
        ((r.min + drawn(rng) as int % (most - r.min + 1)) as nat, stepped(rng))
    }
}

/// The ship with a module and everything that grows from it. `left` is how many levels may still grow.
pub open spec fn grown(
    modules: Seq<ModuleDef>,
    rules: Seq<SlotRule>,
    at: int,
    steps: Seq<Frame>,
    left: nat,
    g: Growth,
) -> Growth
    decreases left, 4int, 0int,
{
    if is_full(g) {
        g
    } else {
        let m = modules[at];
        let next = Growth {
            modules: g.modules.push(GrownView { blueprint: m.blueprint@, steps }),
            ..g
        };
        if left == 0 {
            next
        } else {
            slots_filled(modules, rules, at, steps, left, next, m.slots@.len()).0
        }
    }
}

/// The ship with the first `n` slots of a module filled, and whether it is full.
pub open spec fn slots_filled(
    modules: Seq<ModuleDef>,
    rules: Seq<SlotRule>,
    at: int,
    steps: Seq<Frame>,
    left: nat,
    g: Growth,
    n: nat,
) -> (Growth, bool)
    decreases left, 3int, n,
{
    if n == 0 {
        (g, false)
    } else {
        let (before, full) = slots_filled(modules, rules, at, steps, left, g, (n - 1) as nat);
        if full {
            (before, true)
        } else {
            slot_filled(modules, rules, modules[at].slots@[n - 1], steps, left, before)
        }
    }
}

/// The ship with a slot filled, and whether it is full. A slot without a rule stays empty, as does one
/// that the draw is against or that no module fits.
pub open spec fn slot_filled(
    modules: Seq<ModuleDef>,
    rules: Seq<SlotRule>,
    slot: Slot,
    steps: Seq<Frame>,
    left: nat,
    g: Growth,
) -> (Growth, bool)
    decreases left, 2int, 0int,
{
    match rule_of(rules, slot.tag@) {
        None => (g, false),
        Some(rule) => {
            let tossed = Growth { rng: stepped(g.rng), ..g };
            if drawn(g.rng) >> 40 >= rule.chance {
                (tossed, false)
            } else {
                let (n, rng) = count_drawn(rule, tossed.rng);
                let candidates = filling(modules, views(rule.options@), modules.len());
                let counted = Growth { rng, ..g };
                if candidates.len() == 0 {
                    (counted, false)
                } else {
                    docked(modules, rules, slot, candidates, steps, left, counted, n)
                }
            }
        },
    }
}

/// The ship with the first `n` modules docked at a slot, and whether it is full.
pub open spec fn docked(
    modules: Seq<ModuleDef>,
    rules: Seq<SlotRule>,
    slot: Slot,
    candidates: Seq<usize>,
    steps: Seq<Frame>,
    left: nat,
    g: Growth,
    n: nat,
) -> (Growth, bool)
    decreases left, 1int, n,
{
    if n == 0 {
        (g, false)
    } else {
        let (before, full) = docked(
            modules,
            rules,
            slot,
            candidates,
            steps,
            left,
            g,
            (n - 1) as nat,
        );
        if full || is_full(before) || left == 0 {
            (before, true)
        } else {
            (one_docked(modules, rules, slot, candidates, steps, left, before, n - 1), false)
        }
    }
}

/// The ship with the i-th module docked at a slot, and its mirror image where the slot has one.
pub open spec fn one_docked(
    modules: Seq<ModuleDef>,
    rules: Seq<SlotRule>,
    slot: Slot,
    candidates: Seq<usize>,
    steps: Seq<Frame>,
    left: nat,
    g: Growth,
    i: int,
) -> Growth
    decreases left, 0int, 0int,
{
    if left == 0 {
        g
    } else {
        let pick = candidates[drawn(g.rng) as int % candidates.len() as int] as int;
        let tossed = Growth { rng: stepped(g.rng), ..g };
        let straight = steps.push(slot_frame(slot, i, false));
        let across = steps.push(slot_frame(slot, i, true));
        let one = grown(modules, rules, pick, straight, (left - 1) as nat, tossed);
        if slot.mirror && !is_full(one) {
            grown(modules, rules, pick, across, (left - 1) as nat, one)
        } else {
            one
        }
    }
}

/// The digits of a number in base sixteen, without leading zeros.
pub open spec fn hex(n: nat) -> Seq<char>
    decreases n,
{
    if n < 16 {
        seq![digit(n as int)]
    } else {
        hex(n / 16).push(digit((n % 16) as int))
    }
}

fn push_hex(s: &mut String, n: u64)
    ensures
        final(s)@ == old(s)@ + hex(n as nat),
    decreases n,
{
    if n >= 16 {
        push_hex(s, n / 16);
    }
    s.push(digit_char((n % 16) as u8));
    assert(s@ =~= old(s)@ + hex(n as nat));
}

/// The ship of a seed, if some module can be its core.
pub open spec fn ship_of(
    modules: Seq<ModuleDef>,
    grammar: ShipGrammar,
    seed: u64,
) -> Option<Seq<GrownView>> {
    let roots = filling(modules, seq![grammar.root_tag@], modules.len());
    if roots.len() == 0 {
        None
    } else {
        let start = seed ^ GAMMA;
        let core = roots[drawn(start) as int % roots.len() as int] as int;
        Some(
            grown(
                modules,
                grammar.rules@,
                core,
                Seq::empty(),
                grammar.max_depth as nat,
                Growth { rng: stepped(start), modules: Seq::empty() },
            ).modules,
        )
    }
}

/// What a ship of a grammar and a seed is.
pub open spec fn is_ship_of(
    s: GeneratedShip,
    modules: Seq<ModuleDef>,
    grammar: ShipGrammar,
    seed: u64,
) -> bool {
    &&& ship_of(modules, grammar, seed) is Some
    &&& views(s.modules@) == ship_of(modules, grammar, seed)->0
    &&& s.module_count == s.modules@.len()
    &&& s.module_count <= MAX_MODULES
    &&& s.seed == seed
    &&& s.id@ == "gen-"@ + grammar.id@ + "-"@ + hex(seed as nat)
    &&& s.name@ == grammar.name@ + " #"@ + hex((seed % 0x1_0000) as nat)
}

fn any_role(m: &ModuleDef, roles: &Vec<String>) -> (r: bool)
    ensures
        r == fills(*m, views(roles@), roles@.len()),
{
    let ghost all = views(roles@);
    let mut i: usize = 0;
    while i < roles.len()
        invariant
            i <= roles@.len(),
            all == views(roles@),
            !fills(*m, all, i as nat),
        decreases roles@.len() - i,
    {
        assert(all[i as int] == roles@[i as int]@);
        if m.has_tag(roles[i].as_str()) {
            proof {
                lemma_fills_more(*m, all, (i + 1) as nat, roles@.len());
            }
            return true;
        }
        i = i + 1;
    }
    false
}

proof fn lemma_fills_more(m: ModuleDef, roles: Seq<Seq<char>>, n: nat, k: nat)
    requires
        n <= k,
        fills(m, roles, n),
    ensures
        fills(m, roles, k),
    decreases k,
{
    if n < k {
        lemma_fills_more(m, roles, n, (k - 1) as nat);
    }
}

fn candidates_for(modules: &Vec<ModuleDef>, roles: &Vec<String>) -> (r: Vec<usize>)
    ensures
        r@ == filling(modules@, views(roles@), modules@.len()),
        forall|i: int| 0 <= i < r@.len() ==> (#[trigger] r@[i]) < modules@.len(),
{
    let mut out: Vec<usize> = Vec::new();
    let mut i: usize = 0;
    while i < modules.len()
        invariant
            i <= modules@.len(),
            out@ == filling(modules@, views(roles@), i as nat),
            forall|j: int| 0 <= j < out@.len() ==> (#[trigger] out@[j]) < modules@.len(),
        decreases modules@.len() - i,
    {
        if any_role(&modules[i], roles) {
            out.push(i);
        }
        i = i + 1;
    }
    out
}

fn extend(steps: &Vec<Frame>, step: Frame) -> (r: Vec<Frame>)
    ensures
        r@ == steps@.push(step),
{
    let mut out: Vec<Frame> = Vec::new();
    let mut i: usize = 0;
    while i < steps.len()
        invariant
            i <= steps@.len(),
            out@ == steps@.subrange(0, i as int),
        decreases steps@.len() - i,
    {
        out.push(steps[i]);
        i = i + 1;
        assert(out@ =~= steps@.subrange(0, i as int));
    }
    assert(steps@.subrange(0, i as int) =~= steps@);
    out.push(step);
    out
}

/// The ship as far as it has grown.
spec fn growth_of(rng: Rng, out: Seq<GrownModule>) -> Growth {
    Growth { rng: rng.state, modules: views(out) }
}

fn grow(
    modules: &Vec<ModuleDef>,
    grammar: &ShipGrammar,
    at: usize,
    steps: &Vec<Frame>,
    left: u32,
    rng: &mut Rng,
    out: &mut Vec<GrownModule>,
)
    requires
        at < modules@.len(),
        old(out)@.len() <= MAX_MODULES,
    ensures
        final(out)@.len() <= MAX_MODULES,
        growth_of(*final(rng), final(out)@) == grown(
            modules@,
            grammar.rules@,
            at as int,
            steps@,
            left as nat,
            growth_of(*old(rng), old(out)@),
        ),
    decreases left, 4int, 0int,
{
    if out.len() >= MAX_MODULES as usize {
        return ;
    }
    let module = &modules[at];
    let mut own: Vec<Frame> = Vec::new();
    let mut k: usize = 0;
    while k < steps.len()
        invariant
            k <= steps@.len(),
            own@ == steps@.subrange(0, k as int),
        decreases steps@.len() - k,
    {
        own.push(steps[k]);
        k = k + 1;
        assert(own@ =~= steps@.subrange(0, k as int));
    }
    assert(own@ =~= steps@);
    let ghost before = views(out@);
    out.push(GrownModule { blueprint: module.blueprint.clone(), steps: own });
    assert(views(out@) =~= before.push(
        GrownView { blueprint: module.blueprint@, steps: steps@ },
    ));
    if left == 0 {
        return ;
    }
    fill_slots(modules, grammar, at, steps, left, rng, out);
}

fn fill_slots(
    modules: &Vec<ModuleDef>,
    grammar: &ShipGrammar,
    at: usize,
    steps: &Vec<Frame>,
    left: u32,
    rng: &mut Rng,
    out: &mut Vec<GrownModule>,
)
    requires
        at < modules@.len(),
        left > 0,
        old(out)@.len() <= MAX_MODULES,
    ensures
        final(out)@.len() <= MAX_MODULES,
        growth_of(*final(rng), final(out)@) == slots_filled(
            modules@,
            grammar.rules@,
            at as int,
            steps@,
            left as nat,
            growth_of(*old(rng), old(out)@),
            modules@[at as int].slots@.len(),
        ).0,
    decreases left, 3int, modules@[at as int].slots@.len(),
{
    let ghost start = growth_of(*rng, out@);
    let slots = &modules[at].slots;
    let mut i: usize = 0;
    while i < slots.len()
        invariant
            i <= slots@.len(),
            at < modules@.len(),
            slots@ == modules@[at as int].slots@,
            start == growth_of(*old(rng), old(out)@),
            left > 0,
            out@.len() <= MAX_MODULES,
            (growth_of(*rng, out@), false) == slots_filled(
                modules@,
                grammar.rules@,
                at as int,
                steps@,
                left as nat,
                start,
                i as nat,
            ),
        decreases slots@.len() - i,
    {
        let full: bool = fill_slot(modules, grammar, &slots[i], steps, left, rng, out);
        if full {
            proof {
                lemma_full_stays(
                    modules@,
                    grammar.rules@,
                    at as int,
                    steps@,
                    left as nat,
                    start,
                    (i + 1) as nat,
                    slots@.len(),
                );
            }
            return ;
        }
        i = i + 1;
    }
}

proof fn lemma_full_stays(
    modules: Seq<ModuleDef>,
    rules: Seq<SlotRule>,
    at: int,
    steps: Seq<Frame>,
    left: nat,
    g: Growth,
    n: nat,
    m: nat,
)
    requires
        n <= m,
        slots_filled(modules, rules, at, steps, left, g, n).1,
    ensures
        slots_filled(modules, rules, at, steps, left, g, m) == slots_filled(
            modules,
            rules,
            at,
            steps,
            left,
            g,
            n,
        ),
    decreases m,
{
    if n < m {
        lemma_full_stays(modules, rules, at, steps, left, g, n, (m - 1) as nat);
    }
}

fn fill_slot(
    modules: &Vec<ModuleDef>,
    grammar: &ShipGrammar,
    slot: &Slot,
    steps: &Vec<Frame>,
    left: u32,
    rng: &mut Rng,
    out: &mut Vec<GrownModule>,
) -> (full: bool)
    requires
        left > 0,
        old(out)@.len() <= MAX_MODULES,
    ensures
        final(out)@.len() <= MAX_MODULES,
        (growth_of(*final(rng), final(out)@), full) == slot_filled(
            modules@,
            grammar.rules@,
            *slot,
            steps@,
            left as nat,
            growth_of(*old(rng), old(out)@),
        ),
    decreases left, 2int, 0int,
{
    let rule: &SlotRule = match grammar.rule_for(slot.tag.as_str()) {
        Some(r) => r,
        None => {
            return false;
        },
    };
    if rng.unit() >= rule.chance {
        return false;
    }
    let most: u32 = if rule.max < rule.min {
        rule.min
    } else {
        rule.max
    };
    let n: u32 = rng.range_u32(rule.min, most);
    let candidates = candidates_for(modules, &rule.options);
    if candidates.len() == 0 {
        return false;
    }
    dock(modules, grammar, slot, &candidates, n, steps, left, rng, out)
}

fn dock(
    modules: &Vec<ModuleDef>,
    grammar: &ShipGrammar,
    slot: &Slot,
    candidates: &Vec<usize>,
    n: u32,
    steps: &Vec<Frame>,
    left: u32,
    rng: &mut Rng,
    out: &mut Vec<GrownModule>,
) -> (full: bool)
    requires
        left > 0,
        candidates@.len() > 0,
        forall|i: int| 0 <= i < candidates@.len() ==> (#[trigger] candidates@[i]) < modules@.len(),
        old(out)@.len() <= MAX_MODULES,
    ensures
        final(out)@.len() <= MAX_MODULES,
        (growth_of(*final(rng), final(out)@), full) == docked(
            modules@,
            grammar.rules@,
            *slot,
            candidates@,
            steps@,
            left as nat,
            growth_of(*old(rng), old(out)@),
            n as nat,
        ),
    decreases left, 1int, n,
{
    let ghost start = growth_of(*rng, out@);
    let mut i: u32 = 0;
    while i < n
        invariant
            i <= n,
            start == growth_of(*old(rng), old(out)@),
            left > 0,
            candidates@.len() > 0,
            forall|k: int|
                0 <= k < candidates@.len() ==> (#[trigger] candidates@[k]) < modules@.len(),
            out@.len() <= MAX_MODULES,
            (growth_of(*rng, out@), false) == docked(
                modules@,
                grammar.rules@,
                *slot,
                candidates@,
                steps@,
                left as nat,
                start,
                i as nat,
            ),
        decreases n - i,
    {
        if out.len() >= MAX_MODULES as usize {
            proof {
                lemma_docked_stays(
                    modules@,
                    grammar.rules@,
                    *slot,
                    candidates@,
                    steps@,
                    left as nat,
                    start,
                    (i + 1) as nat,
                    n as nat,
                );
            }
            return true;
        }
        dock_one(modules, grammar, slot, candidates, i, steps, left, rng, out);
        i = i + 1;
    }
    false
}

fn dock_one(
    modules: &Vec<ModuleDef>,
    grammar: &ShipGrammar,
    slot: &Slot,
    candidates: &Vec<usize>,
    i: u32,
    steps: &Vec<Frame>,
    left: u32,
    rng: &mut Rng,
    out: &mut Vec<GrownModule>,
)
    requires
        left > 0,
        i < u32::MAX,
        candidates@.len() > 0,
        forall|k: int| 0 <= k < candidates@.len() ==> (#[trigger] candidates@[k]) < modules@.len(),
        old(out)@.len() <= MAX_MODULES,
    ensures
        final(out)@.len() <= MAX_MODULES,
        growth_of(*final(rng), final(out)@) == one_docked(
            modules@,
            grammar.rules@,
            *slot,
            candidates@,
            steps@,
            left as nat,
            growth_of(*old(rng), old(out)@),
            i as int,
        ),
    decreases left, 0int, 0int,
{
    let pick: usize = candidates[rng.below(candidates.len())];
    proof {
        lemma_fan(slot.at.x, slot.step, i);
    }
    let frame = Frame {
        x: slot.at.x as i64 + slot.step as i64 * i as i64,
        y: slot.at.y as i64,
        rot: slot.at.rot as i64,
        mirrored: false,
    };
    let there = extend(steps, frame);
    grow(modules, grammar, pick, &there, left - 1, rng, out);
    if slot.mirror && out.len() < MAX_MODULES as usize {
        let across = extend(steps, Frame { mirrored: true, ..frame });
        grow(modules, grammar, pick, &across, left - 1, rng, out);
    }
}

proof fn lemma_fan(a: i32, d: i32, i: u32)
    requires
        i < u32::MAX,
    ensures
        i64::MIN <= d * i <= i64::MAX,
        i64::MIN <= a + d * i <= i64::MAX,
{
    assert(-0x8000_0000 * 0xffff_fffe <= d * i <= 0x7fff_ffff * 0xffff_fffe) by (nonlinear_arith)
        requires
            -0x8000_0000 <= d <= 0x7fff_ffff,
            0 <= i <= 0xffff_fffe,
    ;
}

proof fn lemma_docked_stays(
    modules: Seq<ModuleDef>,
    rules: Seq<SlotRule>,
    slot: Slot,
    candidates: Seq<usize>,
    steps: Seq<Frame>,
    left: nat,
    g: Growth,
    n: nat,
    m: nat,
)
    requires
        n <= m,
        docked(modules, rules, slot, candidates, steps, left, g, n).1,
    ensures
        docked(modules, rules, slot, candidates, steps, left, g, m) == docked(
            modules,
            rules,
            slot,
            candidates,
            steps,
            left,
            g,
            n,
        ),
    decreases m,
{
    if n < m {
        lemma_docked_stays(
            modules,
            rules,
            slot,
            candidates,
            steps,
            left,
            g,
            n,
            (m - 1) as nat,
        );
    }
}

/// Grows the ship of a seed. Fails only where no module can be its core.
pub fn generate_ship(modules: &Vec<ModuleDef>, grammar: &ShipGrammar, seed: u64) -> (r: Result<
    GeneratedShip,
    NoRoot,
>)
    ensures
        match r {
            Ok(s) => is_ship_of(s, modules@, *grammar, seed),
            Err(e) => {
                &&& ship_of(modules@, *grammar, seed) is None
                &&& e.grammar@ == grammar.id@
                &&& e.root_tag@ == grammar.root_tag@
            },
        },
{
    let mut rng = Rng::new(seed);
    let mut core_role: Vec<String> = Vec::new();
    core_role.push(grammar.root_tag.clone());
    assert(views(core_role@) =~= seq![grammar.root_tag@]);
    let roots = candidates_for(modules, &core_role);
    if roots.len() == 0 {
        return Err(
            NoRoot { grammar: grammar.id.clone(), root_tag: grammar.root_tag.clone() },
        );
    }
    let root: usize = roots[rng.below(roots.len())];
    let mut grown_modules: Vec<GrownModule> = Vec::new();
    let steps: Vec<Frame> = Vec::new();
    proof {
        assert(views(grown_modules@) =~= Seq::<GrownView>::empty());
        assert(steps@ =~= Seq::<Frame>::empty());
    }
    grow(modules, grammar, root, &steps, grammar.max_depth, &mut rng, &mut grown_modules);
    let mut id: String = "gen-".to_string();
    id.append(grammar.id.as_str());
    id.append("-");
    push_hex(&mut id, seed);
    let mut name: String = grammar.name.clone();
    name.append(" #");
    push_hex(&mut name, seed % 0x1_0000);
    let module_count: u32 = grown_modules.len() as u32;
    Ok(GeneratedShip { id, name, modules: grown_modules, seed, module_count })
}

/// The seed of the i-th ship of a fleet.
pub open spec fn fleet_seed(base_seed: u64, i: u32) -> u64 {
    drawn((base_seed ^ (i as u64).wrapping_mul(GAMMA)) ^ GAMMA)
}

/// Grows a fleet of ships from one grammar, each with a seed of its own. The fleet is empty where no
/// module can be a core.
pub fn generate_fleet(
    modules: &Vec<ModuleDef>,
    grammar: &ShipGrammar,
    base_seed: u64,
    count: u32,
) -> (r: Vec<GeneratedShip>)
    ensures
        ({
            let rooted = filling(modules@, seq![grammar.root_tag@], modules@.len()).len() > 0;
            r@.len() == (if rooted {
                count as nat
            } else {
                0
            })
        }),
        forall|i: int|
            0 <= i < r@.len() ==> is_ship_of(
                #[trigger] r@[i],
                modules@,
                *grammar,
                fleet_seed(base_seed, i as u32),
            ),
{
    let mut out: Vec<GeneratedShip> = Vec::new();
    let ghost rooted = filling(modules@, seq![grammar.root_tag@], modules@.len()).len() > 0;
    let mut i: u32 = 0;
    while i < count
        invariant
            i <= count,
            rooted == (filling(modules@, seq![grammar.root_tag@], modules@.len()).len() > 0),
            out@.len() == (if rooted {
                i as nat
            } else {
                0
            }),
            forall|j: int|
                0 <= j < out@.len() ==> is_ship_of(
                    #[trigger] out@[j],
                    modules@,
                    *grammar,
                    fleet_seed(base_seed, j as u32),
                ),
        decreases count - i,
    {
        let mut r = Rng::new(base_seed ^ (i as u64).wrapping_mul(GAMMA));
        let seed: u64 = r.next_u64();
        match generate_ship(modules, grammar, seed) {
            Ok(s) => {
                out.push(s);
            },
            Err(e) => {},
        }
        i = i + 1;
    }
    out
}

/// Every module of a ship is drawn by the design of one of the modules that there are.
pub open spec fn made_of(modules: Seq<ModuleDef>, ship: Seq<GrownView>) -> bool {
    forall|k: int|
        0 <= k < ship.len() ==> exists|j: int|
            0 <= j < modules.len() && modules[j].blueprint@ == (#[trigger] ship[k]).blueprint
}

spec fn within(modules: Seq<ModuleDef>, candidates: Seq<usize>) -> bool {
    &&& candidates.len() > 0
    &&& forall|i: int| 0 <= i < candidates.len() ==> (#[trigger] candidates[i]) < modules.len()
}

proof fn lemma_filling(modules: Seq<ModuleDef>, roles: Seq<Seq<char>>, n: nat)
    requires
        n <= modules.len() <= usize::MAX,
    ensures
        forall|i: int|
            0 <= i < filling(modules, roles, n).len() ==> (#[trigger] filling(modules, roles, n)[i])
                < n,
    decreases n,
{
    if n > 0 {
        lemma_filling(modules, roles, (n - 1) as nat);
        let before = filling(modules, roles, (n - 1) as nat);
        let all = filling(modules, roles, n);
        assert forall|i: int| 0 <= i < all.len() implies (#[trigger] all[i]) < n by {
            if i < before.len() {
                assert(all[i] == before[i]);
            }
        }
    }
}

/// No ship has more modules than the cap, whatever its grammar allows, and all of them are modules that
/// there are.
pub proof fn law_growth_is_capped(
    modules: Seq<ModuleDef>,
    rules: Seq<SlotRule>,
    at: int,
    steps: Seq<Frame>,
    left: nat,
    g: Growth,
)
    requires
        g.modules.len() <= MAX_MODULES,
    ensures
        grown(modules, rules, at, steps, left, g).modules.len() <= MAX_MODULES,
        g.modules.len() <= grown(modules, rules, at, steps, left, g).modules.len(),
        modules.len() <= usize::MAX && 0 <= at < modules.len() && made_of(modules, g.modules)
            ==> made_of(modules, grown(modules, rules, at, steps, left, g).modules),
    decreases left, 4int, 0int,
{
    if !is_full(g) {
        let m = modules[at];
        let next = Growth {
            modules: g.modules.push(GrownView { blueprint: m.blueprint@, steps }),
            ..g
        };
        if 0 <= at < modules.len() && made_of(modules, g.modules) {
            assert forall|k: int| 0 <= k < next.modules.len() implies exists|j: int|
                0 <= j < modules.len() && modules[j].blueprint@ == (
                #[trigger] next.modules[k]).blueprint by {
                if k < g.modules.len() {
                    assert(next.modules[k] == g.modules[k]);
                } else {
                    assert(modules[at].blueprint@ == next.modules[k].blueprint);
                }
            }
        }
        if left > 0 {
            lemma_slots_capped(modules, rules, at, steps, left, next, m.slots@.len());
        }
    }
}

proof fn lemma_slots_capped(
    modules: Seq<ModuleDef>,
    rules: Seq<SlotRule>,
    at: int,
    steps: Seq<Frame>,
    left: nat,
    g: Growth,
    n: nat,
)
    requires
        g.modules.len() <= MAX_MODULES,
    ensures
        g.modules.len() <= slots_filled(
            modules,
            rules,
            at,
            steps,
            left,
            g,
            n,
        ).0.modules.len() <= MAX_MODULES,
        modules.len() <= usize::MAX && made_of(modules, g.modules) ==> made_of(
            modules,
            slots_filled(modules, rules, at, steps, left, g, n).0.modules,
        ),
    decreases left, 3int, n,
{
    if n > 0 {
        lemma_slots_capped(modules, rules, at, steps, left, g, (n - 1) as nat);
        let (before, full) = slots_filled(modules, rules, at, steps, left, g, (n - 1) as nat);
        let slot = modules[at].slots@[n - 1];
        let filled = slot_filled(modules, rules, slot, steps, left, before);
        if rule_of(rules, slot.tag@) is Some {
            let rule = rule_of(rules, slot.tag@)->0;
            let (k, rng) = count_drawn(rule, stepped(before.rng));
            let candidates = filling(modules, views(rule.options@), modules.len());
            if modules.len() <= usize::MAX {
                lemma_filling(modules, views(rule.options@), modules.len());
            }
            lemma_docked_capped(
                modules,
                rules,
                slot,
                candidates,
                steps,
                left,
                Growth { rng, ..before },
                k,
            );
        }
    }
}

proof fn lemma_docked_capped(
    modules: Seq<ModuleDef>,
    rules: Seq<SlotRule>,
    slot: Slot,
    candidates: Seq<usize>,
    steps: Seq<Frame>,
    left: nat,
    g: Growth,
    n: nat,
)
    requires
        g.modules.len() <= MAX_MODULES,
    ensures
        g.modules.len() <= docked(
            modules,
            rules,
            slot,
            candidates,
            steps,
            left,
            g,
            n,
        ).0.modules.len() <= MAX_MODULES,
        modules.len() <= usize::MAX && within(modules, candidates) && made_of(modules, g.modules)
            ==> made_of(
            modules,
            docked(modules, rules, slot, candidates, steps, left, g, n).0.modules,
        ),
    decreases left, 1int, n,
{
    if n > 0 {
        lemma_docked_capped(
            modules,
            rules,
            slot,
            candidates,
            steps,
            left,
            g,
            (n - 1) as nat,
        );
        let (before, full) = docked(
            modules,
            rules,
            slot,
            candidates,
            steps,
            left,
            g,
            (n - 1) as nat,
        );
        if !(full || is_full(before) || left == 0) {
            lemma_one_capped(modules, rules, slot, candidates, steps, left, before, n - 1);
        }
    }
}

proof fn lemma_one_capped(
    modules: Seq<ModuleDef>,
    rules: Seq<SlotRule>,
    slot: Slot,
    candidates: Seq<usize>,
    steps: Seq<Frame>,
    left: nat,
    g: Growth,
    i: int,
)
    requires
        g.modules.len() <= MAX_MODULES,
    ensures
        g.modules.len() <= one_docked(
            modules,
            rules,
            slot,
            candidates,
            steps,
            left,
            g,
            i,
        ).modules.len() <= MAX_MODULES,
        modules.len() <= usize::MAX && within(modules, candidates) && made_of(modules, g.modules)
            ==> made_of(
            modules,
            one_docked(modules, rules, slot, candidates, steps, left, g, i).modules,
        ),
    decreases left, 0int, 0int,
{
    if left > 0 {
        if candidates.len() > 0 {
            vstd::arithmetic::div_mod::lemma_mod_bound(
                drawn(g.rng) as int,
                candidates.len() as int,
            );
        }
        let pick = candidates[drawn(g.rng) as int % candidates.len() as int] as int;
        let tossed = Growth { rng: stepped(g.rng), ..g };
        let straight = steps.push(slot_frame(slot, i, false));
        let across = steps.push(slot_frame(slot, i, true));
        law_growth_is_capped(modules, rules, pick, straight, (left - 1) as nat, tossed);
        let one = grown(modules, rules, pick, straight, (left - 1) as nat, tossed);
        law_growth_is_capped(modules, rules, pick, across, (left - 1) as nat, one);
    }
}

/// The parts of the first `n` modules of a ship, or what is wrong with their designs. `path` is the ship
/// that they are placed in.
pub open spec fn parts_of_modules(
    c: Stock,
    ship: Seq<GrownView>,
    n: nat,
    path: Seq<Seq<char>>,
) -> Result<Seq<PartView>, FaultView>
    decreases n,
{
    if n == 0 {
        Ok(Seq::empty())
    } else {
        match parts_of_modules(c, ship, (n - 1) as nat, path) {
            Err(e) => Err(e),
            Ok(before) => match parts_of_design(
                c,
                ship[n - 1].blueprint,
                Seq::empty(),
                ship[n - 1].steps,
                MAX_BLUEPRINT_DEPTH as nat,
                path,
            ) {
                Err(e) => Err(e),
                Ok(more) => Ok(before + more),
            },
        }
    }
}

/// The parts of a ship: those of its modules, each where the steps from the core lead.
pub open spec fn parts_of_ship(c: Stock, ship: GeneratedShip) -> Result<Seq<PartView>, FaultView> {
    parts_of_modules(c, views(ship.modules@), ship.modules@.len(), seq![ship.id@])
}

/// Resolves a ship into a craft, as a design that places its modules. Each part's frames lead from the
/// core through the modules that it hangs from.
pub fn resolve_ship(catalog: &Catalog, ship: &GeneratedShip) -> (r: Result<ResolvedCraft, Fault>)
    ensures
        match r {
            Ok(craft) => {
                &&& parts_of_ship(stock_of(*catalog), *ship) is Ok
                &&& views(craft.parts@) == parts_of_ship(stock_of(*catalog), *ship)->Ok_0
                &&& is_craft_of(craft, craft.parts@)
            },
            Err(e) => parts_of_ship(stock_of(*catalog), *ship) == Err::<Seq<PartView>, FaultView>(
                e@,
            ),
        },
{
    let ghost c = stock_of(*catalog);
    let ghost all = views(ship.modules@);
    let mut path: Vec<String> = Vec::new();
    path.push(ship.id.clone());
    let args: Vec<Setting> = Vec::new();
    let mut parts: Vec<ResolvedPart> = Vec::new();
    proof {
        assert(views(path@) =~= seq![ship.id@]);
        assert(views(args@) =~= Seq::empty());
        assert(views(parts@) =~= Seq::empty());
    }
    let mut i: usize = 0;
    while i < ship.modules.len()
        invariant
            i <= ship.modules@.len(),
            c == stock_of(*catalog),
            all == views(ship.modules@),
            views(path@) == seq![ship.id@],
            views(args@) == Seq::<SettingView>::empty(),
            parts_of_modules(c, all, i as nat, views(path@)) == Ok::<Seq<PartView>, FaultView>(
                views(parts@),
            ),
        decreases ship.modules@.len() - i,
    {
        let m = &ship.modules[i];
        assert(all[i as int] == m@);
        match resolve_blueprint_into(
            catalog,
            m.blueprint.as_str(),
            &args,
            &m.steps,
            MAX_BLUEPRINT_DEPTH,
            &path,
            &mut parts,
        ) {
            Ok(u) => {},
            Err(e) => {
                proof {
                    lemma_modules_fail(c, all, (i + 1) as nat, all.len(), views(path@), e@);
                }
                return Err(e);
            },
        }
        i = i + 1;
    }
    Ok(aggregate(parts))
}

/// A ship whose first modules fail fails as a whole, and for the same reason.
proof fn lemma_modules_fail(
    c: Stock,
    ship: Seq<GrownView>,
    n: nat,
    m: nat,
    path: Seq<Seq<char>>,
    e: FaultView,
)
    requires
        n <= m,
        parts_of_modules(c, ship, n, path) == Err::<Seq<PartView>, FaultView>(e),
    ensures
        parts_of_modules(c, ship, m, path) == Err::<Seq<PartView>, FaultView>(e),
    decreases m,
{
    if n < m {
        lemma_modules_fail(c, ship, n, (m - 1) as nat, path, e);
    }
}

/// A ship goes straight to the resolver: where the designs of the modules are sound as parts of a ship of
/// that id, every ship that grows from them resolves.
pub proof fn law_grown_ships_resolve(
    c: Stock,
    shapes: Seq<bool>,
    modules: Seq<ModuleDef>,
    grammar: ShipGrammar,
    seed: u64,
    ship: GeneratedShip,
)
    requires
        modules.len() <= usize::MAX,
        is_ship_of(ship, modules, grammar, seed),
        forall|j: int|
            0 <= j < modules.len() ==> flaw_of_design(
                c,
                shapes,
                (#[trigger] modules[j]).blueprint@,
                MAX_BLUEPRINT_DEPTH as nat,
                seq![ship.id@],
            ) is None,
    ensures
        parts_of_ship(c, ship) is Ok,
{
    let roots = filling(modules, seq![grammar.root_tag@], modules.len());
    let start = seed ^ GAMMA;
    lemma_filling(modules, seq![grammar.root_tag@], modules.len());
    vstd::arithmetic::div_mod::lemma_mod_bound(drawn(start) as int, roots.len() as int);
    let core = roots[drawn(start) as int % roots.len() as int] as int;
    law_growth_is_capped(
        modules,
        grammar.rules@,
        core,
        Seq::empty(),
        grammar.max_depth as nat,
        Growth { rng: stepped(start), modules: Seq::empty() },
    );
    lemma_modules_resolve(c, shapes, modules, views(ship.modules@), ship.modules@.len(), ship.id@);
}

proof fn lemma_modules_resolve(
    c: Stock,
    shapes: Seq<bool>,
    modules: Seq<ModuleDef>,
    ship: Seq<GrownView>,
    n: nat,
    id: Seq<char>,
)
    requires
        n <= ship.len(),
        made_of(modules, ship),
        forall|j: int|
            0 <= j < modules.len() ==> flaw_of_design(
                c,
                shapes,
                (#[trigger] modules[j]).blueprint@,
                MAX_BLUEPRINT_DEPTH as nat,
                seq![id],
            ) is None,
    ensures
        parts_of_modules(c, ship, n, seq![id]) is Ok,
    decreases n,
{
    if n > 0 {
        lemma_modules_resolve(c, shapes, modules, ship, (n - 1) as nat, id);
        let m = ship[n - 1];
        let j = choose|j: int| 0 <= j < modules.len() && modules[j].blueprint@ == m.blueprint;
        assert(modules[j].blueprint@ == m.blueprint);
        lemma_sound_design(
            c,
            shapes,
            m.blueprint,
            Seq::empty(),
            m.steps,
            MAX_BLUEPRINT_DEPTH as nat,
            seq![id],
        );
    }
}

/// The child is docked to the parent: at the `n`-th place of a slot `si` of the module `pm` that the parent is.
/// Its last step goes to the slot's own `y` and angle, and `n` steps of the slot along `x`; it is mirrored only
/// where the slot is; and it is a module `cm` with a tag that the slot's rule asks for.
pub open spec fn is_docked_at(
    modules: Seq<ModuleDef>,
    rules: Seq<SlotRule>,
    parent: GrownView,
    child: GrownView,
    pm: int,
    si: int,
    n: int,
    cm: int,
) -> bool {
    let slot = modules[pm].slots@[si];
    let last = child.steps.last();
    &&& 0 <= pm < modules.len()
    &&& modules[pm].blueprint@ == parent.blueprint
    &&& 0 <= si < modules[pm].slots@.len()
    &&& 0 <= cm < modules.len()
    &&& modules[cm].blueprint@ == child.blueprint
    &&& child.steps.len() == parent.steps.len() + 1
    &&& child.steps.drop_last() == parent.steps
    &&& last.x == slot.at.x + n * slot.step
    &&& last.y == slot.at.y
    &&& last.rot == slot.at.rot
    &&& last.mirrored ==> slot.mirror
    &&& rule_of(rules, slot.tag@) matches Some(rule) && 0 <= n && (n < rule.min || n < rule.max)
        && rule.chance > 0 && exists|o: int|
        0 <= o < rule.options@.len() && views(modules[cm].tags@).contains(
            (#[trigger] rule.options@[o])@,
        )
}

/// The module at a place of a ship is docked to one that comes before it.
pub open spec fn has_a_dock(
    modules: Seq<ModuleDef>,
    rules: Seq<SlotRule>,
    ship: Seq<GrownView>,
    k: int,
) -> bool {
    exists|q: int, pm: int, si: int, n: int, cm: int|
        0 <= q < k && #[trigger] is_docked_at(modules, rules, ship[q], ship[k], pm, si, n, cm)
}

spec fn well_docked(modules: Seq<ModuleDef>, rules: Seq<SlotRule>, ship: Seq<GrownView>) -> bool {
    forall|k: int| 0 < k < ship.len() ==> #[trigger] has_a_dock(modules, rules, ship, k)
}

spec fn grows_from(a: Seq<GrownView>, b: Seq<GrownView>) -> bool {
    a.len() <= b.len() && b.take(a.len() as int) == a
}

proof fn lemma_grows_on(a: Seq<GrownView>, b: Seq<GrownView>, c: Seq<GrownView>)
    requires
        grows_from(a, b),
        grows_from(b, c),
    ensures
        grows_from(a, c),
{
    assert(c.take(a.len() as int) =~= c.take(b.len() as int).take(a.len() as int));
}

proof fn lemma_well_docked_push(
    modules: Seq<ModuleDef>,
    rules: Seq<SlotRule>,
    ship: Seq<GrownView>,
    m: GrownView,
)
    requires
        well_docked(modules, rules, ship),
        ship.len() > 0 ==> has_a_dock(modules, rules, ship.push(m), ship.len() as int),
    ensures
        well_docked(modules, rules, ship.push(m)),
{
    let more = ship.push(m);
    assert forall|k: int| 0 < k < more.len() implies #[trigger] has_a_dock(
        modules,
        rules,
        more,
        k,
    ) by {
        if k < ship.len() {
            assert(has_a_dock(modules, rules, ship, k));
            let (q, pm, si, n, cm) = choose|q: int, pm: int, si: int, n: int, cm: int|
                0 <= q < k && #[trigger] is_docked_at(
                    modules,
                    rules,
                    ship[q],
                    ship[k],
                    pm,
                    si,
                    n,
                    cm,
                );
            assert(more[q] == ship[q] && more[k] == ship[k]);
            assert(is_docked_at(modules, rules, more[q], more[k], pm, si, n, cm));
        }
    }
}

/// What grows from a module that stands well stands well.
proof fn lemma_growth_docks(
    modules: Seq<ModuleDef>,
    rules: Seq<SlotRule>,
    at: int,
    steps: Seq<Frame>,
    left: nat,
    g: Growth,
)
    requires
        modules.len() <= usize::MAX,
        0 <= at < modules.len(),
        well_docked(modules, rules, g.modules),
        g.modules.len() > 0 ==> has_a_dock(
            modules,
            rules,
            g.modules.push(GrownView { blueprint: modules[at].blueprint@, steps }),
            g.modules.len() as int,
        ),
    ensures
        ({
            let h = grown(modules, rules, at, steps, left, g);
            &&& well_docked(modules, rules, h.modules)
            &&& grows_from(g.modules, h.modules)
            &&& !is_full(g) ==> h.modules.len() > g.modules.len() && h.modules[g.modules.len() as int]
                == (GrownView { blueprint: modules[at].blueprint@, steps })
        }),
    decreases left, 4int, 0int,
{
    assert(g.modules.take(g.modules.len() as int) =~= g.modules);
    if !is_full(g) {
        let m = modules[at];
        let own = GrownView { blueprint: m.blueprint@, steps };
        let next = Growth { modules: g.modules.push(own), ..g };
        lemma_well_docked_push(modules, rules, g.modules, own);
        assert(next.modules.take(g.modules.len() as int) =~= g.modules);
        if left > 0 {
            let q = g.modules.len() as int;
            assert(next.modules[q] == own);
            lemma_slots_dock(modules, rules, at, steps, left, next, m.slots@.len(), q);
            let h = slots_filled(modules, rules, at, steps, left, next, m.slots@.len()).0;
            lemma_grows_on(g.modules, next.modules, h.modules);
            assert(h.modules[q] == h.modules.take(next.modules.len() as int)[q]);
        }
    }
}

proof fn lemma_slots_dock(
    modules: Seq<ModuleDef>,
    rules: Seq<SlotRule>,
    at: int,
    steps: Seq<Frame>,
    left: nat,
    g: Growth,
    n: nat,
    q: int,
)
    requires
        modules.len() <= usize::MAX,
        0 <= at < modules.len(),
        n <= modules[at].slots@.len(),
        0 <= q < g.modules.len(),
        g.modules[q] == (GrownView { blueprint: modules[at].blueprint@, steps }),
        well_docked(modules, rules, g.modules),
    ensures
        ({
            let h = slots_filled(modules, rules, at, steps, left, g, n).0;
            well_docked(modules, rules, h.modules) && grows_from(g.modules, h.modules)
        }),
    decreases left, 3int, n,
{
    assert(g.modules.take(g.modules.len() as int) =~= g.modules);
    if n > 0 {
        lemma_slots_dock(modules, rules, at, steps, left, g, (n - 1) as nat, q);
        let (before, full) = slots_filled(modules, rules, at, steps, left, g, (n - 1) as nat);
        assert(before.modules[q] == before.modules.take(g.modules.len() as int)[q]);
        if !full {
            lemma_slot_docks(modules, rules, at, n - 1, steps, left, before, q);
            let slot = modules[at].slots@[n - 1];
            let h = slot_filled(modules, rules, slot, steps, left, before).0;
            lemma_grows_on(g.modules, before.modules, h.modules);
        }
    }
}

#[verifier::rlimit(40)]
proof fn lemma_slot_docks(
    modules: Seq<ModuleDef>,
    rules: Seq<SlotRule>,
    at: int,
    si: int,
    steps: Seq<Frame>,
    left: nat,
    g: Growth,
    q: int,
)
    requires
        modules.len() <= usize::MAX,
        0 <= at < modules.len(),
        0 <= si < modules[at].slots@.len(),
        0 <= q < g.modules.len(),
        g.modules[q] == (GrownView { blueprint: modules[at].blueprint@, steps }),
        well_docked(modules, rules, g.modules),
    ensures
        ({
            let h = slot_filled(modules, rules, modules[at].slots@[si], steps, left, g).0;
            well_docked(modules, rules, h.modules) && grows_from(g.modules, h.modules)
        }),
    decreases left, 2int, 0int,
{
    let slot = modules[at].slots@[si];
    assert(g.modules.take(g.modules.len() as int) =~= g.modules);
    if let Some(rule) = rule_of(rules, slot.tag@) {
        let toss = drawn(g.rng) >> 40;
        let (k, rng) = count_drawn(rule, stepped(g.rng));
        let candidates = filling(modules, views(rule.options@), modules.len());
        if candidates.len() > 0 && toss < rule.chance {
            lemma_filling(modules, views(rule.options@), modules.len());
            lemma_filling_fills(modules, views(rule.options@), modules.len());
            lemma_count_drawn(rule, stepped(g.rng));
            lemma_docked_dock(
                modules,
                rules,
                slot,
                candidates,
                steps,
                left,
                Growth { rng, ..g },
                k,
                q,
                at,
                si,
                rule,
            );
        }
    }
}

/// A rule docks no fewer modules than its least number and no more than its greatest, or than its least where
/// that is greater.
proof fn lemma_count_drawn(r: SlotRule, rng: u64)
    ensures
        r.min <= count_drawn(r, rng).0,
        count_drawn(r, rng).0 <= r.min || count_drawn(r, rng).0 <= r.max,
{
    let most = if r.max < r.min {
        r.min
    } else {
        r.max
    };
    if most > r.min {
        vstd::arithmetic::div_mod::lemma_mod_bound(drawn(rng) as int, most - r.min + 1);
    }
}

proof fn lemma_filling_fills(modules: Seq<ModuleDef>, roles: Seq<Seq<char>>, n: nat)
    requires
        n <= modules.len() <= usize::MAX,
    ensures
        forall|i: int|
            0 <= i < filling(modules, roles, n).len() ==> fills(
                modules[(#[trigger] filling(modules, roles, n)[i]) as int],
                roles,
                roles.len(),
            ),
    decreases n,
{
    if n > 0 {
        lemma_filling_fills(modules, roles, (n - 1) as nat);
        let before = filling(modules, roles, (n - 1) as nat);
        let all = filling(modules, roles, n);
        assert forall|i: int| 0 <= i < all.len() implies fills(
            modules[(#[trigger] all[i]) as int],
            roles,
            roles.len(),
        ) by {
            if i < before.len() {
                assert(all[i] == before[i]);
            }
        }
    }
}

proof fn lemma_fills(m: ModuleDef, roles: Seq<Seq<char>>, n: nat) -> (o: int)
    requires
        n <= roles.len(),
        fills(m, roles, n),
    ensures
        0 <= o < n,
        views(m.tags@).contains(roles[o]),
    decreases n,
{
    if fills(m, roles, (n - 1) as nat) {
        lemma_fills(m, roles, (n - 1) as nat)
    } else {
        n - 1
    }
}

proof fn lemma_docked_dock(
    modules: Seq<ModuleDef>,
    rules: Seq<SlotRule>,
    slot: Slot,
    candidates: Seq<usize>,
    steps: Seq<Frame>,
    left: nat,
    g: Growth,
    n: nat,
    q: int,
    at: int,
    si: int,
    rule: SlotRule,
)
    requires
        modules.len() <= usize::MAX,
        0 <= at < modules.len(),
        0 <= si < modules[at].slots@.len(),
        slot == modules[at].slots@[si],
        rule_of(rules, slot.tag@) == Some(rule),
        rule.chance > 0,
        within(modules, candidates),
        forall|i: int|
            0 <= i < candidates.len() ==> fills(
                modules[(#[trigger] candidates[i]) as int],
                views(rule.options@),
                rule.options@.len(),
            ),
        n <= rule.min || n <= rule.max,
        0 <= q < g.modules.len(),
        g.modules[q] == (GrownView { blueprint: modules[at].blueprint@, steps }),
        well_docked(modules, rules, g.modules),
    ensures
        ({
            let h = docked(modules, rules, slot, candidates, steps, left, g, n).0;
            well_docked(modules, rules, h.modules) && grows_from(g.modules, h.modules)
        }),
    decreases left, 1int, n,
{
    assert(g.modules.take(g.modules.len() as int) =~= g.modules);
    if n > 0 {
        lemma_docked_dock(
            modules,
            rules,
            slot,
            candidates,
            steps,
            left,
            g,
            (n - 1) as nat,
            q,
            at,
            si,
            rule,
        );
        let (before, full) = docked(
            modules,
            rules,
            slot,
            candidates,
            steps,
            left,
            g,
            (n - 1) as nat,
        );
        assert(before.modules[q] == before.modules.take(g.modules.len() as int)[q]);
        if !(full || is_full(before) || left == 0) {
            lemma_one_docks(
                modules,
                rules,
                slot,
                candidates,
                steps,
                left,
                before,
                n - 1,
                q,
                at,
                si,
                rule,
            );
            let h = one_docked(modules, rules, slot, candidates, steps, left, before, n - 1);
            lemma_grows_on(g.modules, before.modules, h.modules);
        }
    }
}

proof fn lemma_docks(
    modules: Seq<ModuleDef>,
    rules: Seq<SlotRule>,
    ship: Seq<GrownView>,
    q: int,
    at: int,
    si: int,
    i: int,
    pick: int,
    mirrored: bool,
    steps: Seq<Frame>,
    rule: SlotRule,
)
    requires
        0 <= at < modules.len(),
        0 <= si < modules[at].slots@.len(),
        0 <= pick < modules.len(),
        rule_of(rules, modules[at].slots@[si].tag@) == Some(rule),
        rule.chance > 0,
        0 <= i,
        i < rule.min || i < rule.max,
        fills(modules[pick], views(rule.options@), rule.options@.len()),
        mirrored ==> modules[at].slots@[si].mirror,
        0 <= q < ship.len(),
        ship[q] == (GrownView { blueprint: modules[at].blueprint@, steps }),
    ensures
        has_a_dock(
            modules,
            rules,
            ship.push(
                GrownView {
                    blueprint: modules[pick].blueprint@,
                    steps: steps.push(slot_frame(modules[at].slots@[si], i, mirrored)),
                },
            ),
            ship.len() as int,
        ),
{
    let slot = modules[at].slots@[si];
    let child = GrownView {
        blueprint: modules[pick].blueprint@,
        steps: steps.push(slot_frame(slot, i, mirrored)),
    };
    let more = ship.push(child);
    lemma_fan(slot.at.x, slot.step, i as u32);
    assert(slot.step * i == i * slot.step) by (nonlinear_arith);
    assert(child.steps.drop_last() =~= steps);
    let o = lemma_fills(modules[pick], views(rule.options@), rule.options@.len());
    assert(views(rule.options@)[o] == rule.options@[o]@);
    assert(more[q] == ship[q]);
    assert(is_docked_at(modules, rules, more[q], more[ship.len() as int], at, si, i, pick));
}

proof fn lemma_one_docks(
    modules: Seq<ModuleDef>,
    rules: Seq<SlotRule>,
    slot: Slot,
    candidates: Seq<usize>,
    steps: Seq<Frame>,
    left: nat,
    g: Growth,
    i: int,
    q: int,
    at: int,
    si: int,
    rule: SlotRule,
)
    requires
        modules.len() <= usize::MAX,
        0 <= at < modules.len(),
        0 <= si < modules[at].slots@.len(),
        slot == modules[at].slots@[si],
        rule_of(rules, slot.tag@) == Some(rule),
        rule.chance > 0,
        within(modules, candidates),
        forall|k: int|
            0 <= k < candidates.len() ==> fills(
                modules[(#[trigger] candidates[k]) as int],
                views(rule.options@),
                rule.options@.len(),
            ),
        0 <= i,
        i < rule.min || i < rule.max,
        0 <= q < g.modules.len(),
        g.modules[q] == (GrownView { blueprint: modules[at].blueprint@, steps }),
        well_docked(modules, rules, g.modules),
    ensures
        ({
            let h = one_docked(modules, rules, slot, candidates, steps, left, g, i);
            well_docked(modules, rules, h.modules) && grows_from(g.modules, h.modules)
        }),
    decreases left, 0int, 0int,
{
    assert(g.modules.take(g.modules.len() as int) =~= g.modules);
    if left > 0 {
        vstd::arithmetic::div_mod::lemma_mod_bound(drawn(g.rng) as int, candidates.len() as int);
        let pick = candidates[drawn(g.rng) as int % candidates.len() as int] as int;
        let tossed = Growth { rng: stepped(g.rng), ..g };
        let straight = steps.push(slot_frame(slot, i, false));
        let across = steps.push(slot_frame(slot, i, true));
        lemma_docks(modules, rules, g.modules, q, at, si, i, pick, false, steps, rule);
        lemma_growth_docks(modules, rules, pick, straight, (left - 1) as nat, tossed);
        let one = grown(modules, rules, pick, straight, (left - 1) as nat, tossed);
        if slot.mirror && !is_full(one) {
            assert(one.modules[q] == one.modules.take(g.modules.len() as int)[q]);
            lemma_docks(modules, rules, one.modules, q, at, si, i, pick, true, steps, rule);
            lemma_growth_docks(modules, rules, pick, across, (left - 1) as nat, one);
            let two = grown(modules, rules, pick, across, (left - 1) as nat, one);
            lemma_grows_on(g.modules, one.modules, two.modules);
        }
    }
}

/// A ship is put together at its slots. Its first module is the core: it has the tag that the grammar asks for,
/// and stands at the origin. Every other module is docked to one that comes before it, at a slot of that module.
pub proof fn law_modules_stand_at_slots(
    modules: Seq<ModuleDef>,
    grammar: ShipGrammar,
    seed: u64,
    ship: GeneratedShip,
    k: int,
)
    requires
        modules.len() <= usize::MAX,
        is_ship_of(ship, modules, grammar, seed),
        0 <= k < ship.modules@.len(),
    ensures
        ship.modules@[0].steps@.len() == 0,
        exists|j: int|
            0 <= j < modules.len() && #[trigger] modules[j].blueprint@ == ship.modules@[0].blueprint@
                && views(modules[j].tags@).contains(grammar.root_tag@),
        k > 0 ==> has_a_dock(modules, grammar.rules@, views(ship.modules@), k),
        k > 0 ==> ship.modules@[k].steps@.len() > 0,
{
    let roles = seq![grammar.root_tag@];
    let roots = filling(modules, roles, modules.len());
    let start = seed ^ GAMMA;
    lemma_filling(modules, roles, modules.len());
    lemma_filling_fills(modules, roles, modules.len());
    vstd::arithmetic::div_mod::lemma_mod_bound(drawn(start) as int, roots.len() as int);
    let core = roots[drawn(start) as int % roots.len() as int] as int;
    let g = Growth { rng: stepped(start), modules: Seq::empty() };
    lemma_growth_docks(
        modules,
        grammar.rules@,
        core,
        Seq::empty(),
        grammar.max_depth as nat,
        g,
    );
    let all = views(ship.modules@);
    assert(all[0] == ship.modules@[0]@);
    assert(fills(modules[core], roles, 1));
    let o = lemma_fills(modules[core], roles, 1);
    assert(modules[core].blueprint@ == ship.modules@[0].blueprint@);
    if k > 0 {
        assert(has_a_dock(modules, grammar.rules@, all, k));
        assert(all[k] == ship.modules@[k]@);
    }
}

/// A module that docks at a mirrored slot brings its mirror image along, unless the ship is full by then: the two
/// have the same design and the same place in their frames, and only the second is mirrored. At any other slot it
/// comes alone.
pub proof fn law_mirrored_slots_dock_pairs(
    modules: Seq<ModuleDef>,
    rules: Seq<SlotRule>,
    slot: Slot,
    candidates: Seq<usize>,
    steps: Seq<Frame>,
    g: Growth,
    i: int,
)
    requires
        0 <= i < u32::MAX,
        candidates.len() > 0,
        g.modules.len() + 2 <= 96,
    ensures
        ({
            let h = one_docked(modules, rules, slot, candidates, steps, 1, g, i).modules;
            let a = h[g.modules.len() as int];
            let b = h[g.modules.len() + 1int];
            &&& h.len() == g.modules.len() + (if slot.mirror { 2int } else { 1int })
            &&& a.steps.drop_last() == steps
            &&& a.steps.last().x == slot.at.x + i * slot.step
            &&& a.steps.last().y == slot.at.y
            &&& a.steps.last().rot == slot.at.rot
            &&& !a.steps.last().mirrored
            &&& slot.mirror ==> b.blueprint == a.blueprint && b.steps.drop_last() == steps
                && b.steps.last() == (Frame { mirrored: true, ..a.steps.last() })
        }),
{
    let pick = candidates[drawn(g.rng) as int % candidates.len() as int] as int;
    let tossed = Growth { rng: stepped(g.rng), ..g };
    let straight = steps.push(slot_frame(slot, i, false));
    let across = steps.push(slot_frame(slot, i, true));
    let one = grown(modules, rules, pick, straight, 0, tossed);
    assert(one.modules == g.modules.push(
        GrownView { blueprint: modules[pick].blueprint@, steps: straight },
    ));
    assert(straight.drop_last() =~= steps);
    assert(across.drop_last() =~= steps);
    lemma_fan(slot.at.x, slot.step, i as u32);
    assert(slot.step * i == i * slot.step) by (nonlinear_arith);
}

/// How many modules a rule docks is drawn between its least and its greatest number.
pub proof fn law_counts_are_in_range(r: SlotRule, rng: u64)
    ensures
        r.min <= count_drawn(r, rng).0,
        r.min <= r.max ==> count_drawn(r, rng).0 <= r.max,
        r.max <= r.min ==> count_drawn(r, rng).0 == r.min,
        r.min < r.max ==> count_drawn(r, rng).0 == r.min + drawn(rng) as int % (r.max - r.min + 1),
{
    lemma_count_drawn(r, rng);
}

/// A slot whose tag no rule has stays empty, and so does one whose rule has no chance; one whose rule is certain
/// gets what is drawn for it, as long as some module fits.
pub proof fn law_slots_follow_their_rules(
    modules: Seq<ModuleDef>,
    rules: Seq<SlotRule>,
    slot: Slot,
    steps: Seq<Frame>,
    left: nat,
    g: Growth,
)
    ensures
        rule_of(rules, slot.tag@) is None ==> slot_filled(modules, rules, slot, steps, left, g).0
            == g,
        rule_of(rules, slot.tag@) matches Some(r) && r.chance == 0 ==> slot_filled(
            modules,
            rules,
            slot,
            steps,
            left,
            g,
        ).0.modules == g.modules,
        rule_of(rules, slot.tag@) matches Some(r) && r.chance >= 0x100_0000 ==> {
            let r = rule_of(rules, slot.tag@)->0;
            let candidates = filling(modules, views(r.options@), modules.len());
            let (n, rng) = count_drawn(r, stepped(g.rng));
            candidates.len() > 0 ==> slot_filled(modules, rules, slot, steps, left, g) == docked(
                modules,
                rules,
                slot,
                candidates,
                steps,
                left,
                Growth { rng, ..g },
                n,
            )
        },
{
    let d = drawn(g.rng);
    assert(d >> 40 < 0x100_0000) by (bit_vector);
}

/// The rule of a slot is the first that has its tag.
pub proof fn law_first_rule_counts(rules: Seq<SlotRule>, tag: Seq<char>)
    ensures
        match rule_of(rules, tag) {
            Some(r) => exists|i: int|
                0 <= i < rules.len() && #[trigger] rules[i] == r && r.slot_tag@ == tag && (forall|j: int|
                    0 <= j < i ==> (#[trigger] rules[j]).slot_tag@ != tag),
            None => forall|j: int| 0 <= j < rules.len() ==> (#[trigger] rules[j]).slot_tag@ != tag,
        },
    decreases rules.len(),
{
    if rules.len() > 0 {
        let rest = rules.drop_last();
        law_first_rule_counts(rest, tag);
        assert forall|i: int| 0 <= i < rest.len() implies #[trigger] rest[i] == rules[i] by {}
        if let Some(r) = rule_of(rest, tag) {
            let i = choose|i: int|
                0 <= i < rest.len() && #[trigger] rest[i] == r && r.slot_tag@ == tag && (forall|j: int|
                    0 <= j < i ==> (#[trigger] rest[j]).slot_tag@ != tag);
            assert(rules[i] == r);
            assert forall|j: int| 0 <= j < i implies (#[trigger] rules[j]).slot_tag@ != tag by {
                assert(rest[j].slot_tag@ != tag);
            }
        } else {
            assert forall|j: int| 0 <= j < rest.len() implies (#[trigger] rules[j]).slot_tag@
                != tag by {
                assert(rest[j].slot_tag@ != tag);
            }
            assert(rules[rules.len() - 1] == rules.last());
        }
    }
}

/// A ship resolves into the parts of its modules, one module after the other, each where its steps lead: the parts
/// of a module are those of its design alone, seen through the steps.
pub proof fn law_ships_are_put_together(
    c: Stock,
    ship: Seq<GrownView>,
    n: nat,
    path: Seq<Seq<char>>,
)
    requires
        n < ship.len(),
        parts_of_modules(c, ship, n + 1, path) is Ok,
    ensures
        ({
            let before = parts_of_modules(c, ship, n, path);
            let alone = parts_of_design(
                c,
                ship[n as int].blueprint,
                Seq::empty(),
                Seq::empty(),
                16,
                path,
            );
            let all = parts_of_modules(c, ship, n + 1, path)->Ok_0;
            &&& before is Ok
            &&& alone is Ok
            &&& all.len() == before->Ok_0.len() + alone->Ok_0.len()
            &&& forall|k: int|
                0 <= k < alone->Ok_0.len() ==> (#[trigger] all[before->Ok_0.len() + k]).frames
                    == ship[n as int].steps + alone->Ok_0[k].frames && all[before->Ok_0.len() + k].def
                    == alone->Ok_0[k].def
            &&& forall|k: int| 0 <= k < before->Ok_0.len() ==> #[trigger] all[k] == before->Ok_0[k]
        }),
{
    let m = ship[n as int];
    let none = Seq::<Frame>::empty();
    crate::blueprint::law_designs_are_rigid(c, m.blueprint, Seq::empty(), m.steps, none, 16, path);
    assert(m.steps + none =~= m.steps);
    let before = parts_of_modules(c, ship, n, path)->Ok_0;
    let alone = parts_of_design(c, m.blueprint, Seq::empty(), none, 16, path)->Ok_0;
    let all = parts_of_modules(c, ship, n + 1, path)->Ok_0;
    assert forall|k: int| 0 <= k < alone.len() implies (#[trigger] all[before.len() + k]).frames
        == m.steps + alone[k].frames && all[before.len() + k].def == alone[k].def by {
        assert(all[before.len() + k] == crate::blueprint::seen_through(m.steps, alone[k]));
    }
}

/// The modules that a slot may take are all those that carry one of its roles, in the order of the catalogue, each once.
pub proof fn law_candidates_carry_a_role(modules: Seq<ModuleDef>, roles: Seq<Seq<char>>, n: nat, k: int, r: int)
    requires
        n <= modules.len() <= usize::MAX,
        0 <= k < n,
        0 <= r < roles.len(),
    ensures
        views(modules[k].tags@).contains(roles[r]) ==> filling(modules, roles, n).contains(k as usize),
        forall|i: int|
            0 <= i < filling(modules, roles, n).len() ==> (#[trigger] filling(modules, roles, n)[i]) < n
                && carries_one(modules[filling(modules, roles, n)[i] as int], roles),
        forall|i: int, j: int|
            0 <= i < j < filling(modules, roles, n).len() ==> (#[trigger] filling(modules, roles, n)[i])
                < (#[trigger] filling(modules, roles, n)[j]),
    decreases n,
{
    let f = filling(modules, roles, n);
    let before = filling(modules, roles, (n - 1) as nat);
    lemma_fills_by_a_tag(modules[n - 1], roles, roles.len());
    if n > 1 {
        law_candidates_carry_a_role(modules, roles, (n - 1) as nat, if k < n - 1 { k } else { 0 }, r);
    }
    if views(modules[k].tags@).contains(roles[r]) {
        if k < n - 1 {
            let i = choose|i: int| 0 <= i < before.len() && before[i] == k as usize;
            assert(f[i] == before[i]);
        } else {
            assert(fills(modules[n - 1], roles, roles.len()));
            assert(f.last() == k as usize);
            assert(f[f.len() - 1] == k as usize);
        }
    }
    assert forall|i: int| 0 <= i < f.len() implies (#[trigger] f[i]) < n && carries_one(
        modules[f[i] as int],
        roles,
    ) by {
        if i < before.len() {
            assert(f[i] == before[i]);
        }
    }
    assert forall|i: int, j: int| 0 <= i < j < f.len() implies (#[trigger] f[i]) < (#[trigger] f[j]) by {
        assert(f[i] == before[i]);
        if j < before.len() {
            assert(f[j] == before[j]);
        }
    }
}

/// The module carries one of the roles.
pub open spec fn carries_one(m: ModuleDef, roles: Seq<Seq<char>>) -> bool {
    exists|i: int, j: int|
        0 <= i < m.tags@.len() && 0 <= j < roles.len() && (#[trigger] m.tags@[i])@ == #[trigger] roles[j]
}

proof fn lemma_fills_by_a_tag(m: ModuleDef, roles: Seq<Seq<char>>, n: nat)
    requires
        n <= roles.len(),
    ensures
        fills(m, roles, n) ==> carries_one(m, roles),
        forall|j: int| 0 <= j < n && views(m.tags@).contains(#[trigger] roles[j]) ==> fills(m, roles, n),
    decreases n,
{
    if n > 0 {
        lemma_fills_by_a_tag(m, roles, (n - 1) as nat);
        if views(m.tags@).contains(roles[n - 1]) {
            let i = choose|i: int| 0 <= i < views(m.tags@).len() && views(m.tags@)[i] == roles[n - 1];
            assert(m.tags@[i]@ == roles[n - 1]);
        }
    }
}

} // verus!
