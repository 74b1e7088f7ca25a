//! The galaxy leaderboard: a canonical board of kills that can be sealed against the chain.
//!
//! Two honest hosts of the same standings produce the same bytes, whatever the order in which the
//! rows came and however the sectors are spread over nodes. The bytes are a faithful image of the
//! board, so any edit changes them.
use vstd::prelude::*;
use vstd::string::*;
use vstd::utf8::*;

use crate::hash::{fnv64, fnv64_from, FNV64_BASIS};
use crate::json::{
    json_text, lemma_dec_prefix_free, lemma_json_text_prefix_free, lemma_literal_prefix, push_json_string,
};
use crate::order::{views, Ordered, SortedMap};
use crate::sort::{
    in_order, law_sort_shows_alike, lemma_sorted_contains, lemma_stably_sorted, sort_stably, stably_sorted, tied, Ranked,
};
use crate::text::{dec, lemma_text_order, push_dec, same_text, text_below, text_less};

verus! {

/// One player's standing.
#[derive(Debug, PartialEq, Eq)]
pub struct Standing {
    /// The player's node id.
    pub id: String,
    pub name: String,
    /// Kills over all sectors.
    pub kills: u32,
}

impl Clone for Standing {
    fn clone(&self) -> (r: Self)
        ensures
            r == *self,
    {
        Standing { id: self.id.clone(), name: self.name.clone(), kills: self.kills }
    }
}

/// A standing with texts in place of strings.
pub struct StandingView {
    pub id: Seq<char>,
    pub name: Seq<char>,
    pub kills: u32,
}

impl View for Standing {
    type V = StandingView;

    open spec fn view(&self) -> StandingView {
        StandingView { id: self.id@, name: self.name@, kills: self.kills }
    }
}

/// Most kills first, equal kills by id; rows of one player with equal kills by name.
pub open spec fn ranks_above(a: StandingView, b: StandingView) -> bool {
    a.kills > b.kills || (a.kills == b.kills && (text_below(a.id, b.id) || (a.id == b.id
        && text_below(a.name, b.name))))
}

impl Ranked for Standing {
    open spec fn before(&self, other: &Self) -> bool {
        ranks_above(self@, other@)
    }

    fn goes_before(&self, other: &Self) -> (r: bool) {
        self.kills > other.kills || (self.kills == other.kills && (text_less(
            self.id.as_str(),
            other.id.as_str(),
        ) || (same_text(self.id.as_str(), other.id.as_str()) && text_less(
            self.name.as_str(),
            other.name.as_str(),
        ))))
    }

    proof fn before_asymmetric(a: &Self, b: &Self) {
        lemma_text_order(a.id@, b.id@, a.id@);
        lemma_text_order(a.name@, b.name@, a.name@);
    }

    proof fn before_negatively_transitive(a: &Self, b: &Self, c: &Self) {
        lemma_all_orders(a.id@, b.id@, c.id@);
        lemma_all_orders(a.name@, b.name@, c.name@);
    }
}

/// How three texts stand to one another, taken in every order.
proof fn lemma_all_orders(a: Seq<char>, b: Seq<char>, c: Seq<char>)
    ensures
        !text_below(a, a),
        !(text_below(a, b) && text_below(b, a)),
        !text_below(a, b) && !text_below(b, a) ==> a == b,
        text_below(a, b) && text_below(b, c) ==> text_below(a, c),
        text_below(b, a) && text_below(a, c) ==> text_below(b, c),
        text_below(b, c) && text_below(c, a) ==> text_below(b, a),
        text_below(c, b) && text_below(b, a) ==> text_below(c, a),
        text_below(a, c) && text_below(c, b) ==> text_below(a, b),
        text_below(c, a) && text_below(a, b) ==> text_below(c, b),
        !text_below(b, c) && !text_below(c, b) ==> b == c,
        !text_below(a, c) && !text_below(c, a) ==> a == c,
{
    lemma_text_order(a, b, c);
    lemma_text_order(b, a, c);
    lemma_text_order(b, c, a);
    lemma_text_order(c, b, a);
    lemma_text_order(a, c, b);
    lemma_text_order(c, a, b);
    lemma_text_order(a, a, a);
}

/// The standings of a galaxy in canonical order: most kills first, equal kills by id.
#[derive(Debug, PartialEq, Eq)]
pub struct Leaderboard {
    pub galaxy: String,
    /// The latest tick of the sectors that went in.
    pub tick: u64,
    pub standings: Vec<Standing>,
}

/// A board with texts in place of strings.
#[verifier::ext_equal]
pub struct LeaderboardView {
    pub galaxy: Seq<char>,
    pub tick: u64,
    pub standings: Seq<StandingView>,
}

impl View for Leaderboard {
    type V = LeaderboardView;

    open spec fn view(&self) -> LeaderboardView {
        LeaderboardView {
            galaxy: self.galaxy@,
            tick: self.tick,
            standings: views(self.standings@),
        }
    }
}

/// The standing that a row spells out.
pub open spec fn standing_of(row: (String, String, u32)) -> Standing {
    Standing { id: row.0, name: row.1, kills: row.2 }
}

/// A standing of a board, with the tick of the board.
pub struct Row {
    pub tick: u64,
    pub standing: Standing,
}

/// The kills of an id over some rows.
pub open spec fn kills_of(rows: Seq<Row>, id: Seq<char>) -> nat
    decreases rows.len(),
{
    if rows.len() == 0 {
        0
    } else {
        kills_of(rows.drop_last(), id) + (if rows.last().standing.id@ == id {
            rows.last().standing.kills as nat
        } else {
            0
        })
    }
}

/// A name and the tick at which it was in use.
pub struct Called {
    pub tick: u64,
    pub name: Seq<char>,
}

/// The name is later than another; of two at one tick, the one that comes after in the order of texts.
pub open spec fn later(a: Called, b: Called) -> bool {
    a.tick > b.tick || (a.tick == b.tick && text_below(b.name, a.name))
}

/// The row has the id and a name.
pub open spec fn names(r: Row, id: Seq<char>) -> bool {
    r.standing.id@ == id && r.standing.name@.len() > 0
}

pub open spec fn called(r: Row) -> Called {
    Called { tick: r.tick, name: r.standing.name@ }
}

/// The latest name of an id, where it has one.
pub open spec fn latest_name(rows: Seq<Row>, id: Seq<char>) -> Option<Called>
    decreases rows.len(),
{
    if rows.len() == 0 {
        None
    } else {
        let r = rows.last();
        match latest_name(rows.drop_last(), id) {
            Some(best) => if names(r, id) && later(called(r), best) {
                Some(called(r))
            } else {
                Some(best)
            },
            None => if names(r, id) {
                Some(called(r))
            } else {
                None
            },
        }
    }
}

/// The latest name of an id that is not empty; empty where it has none.
pub open spec fn name_of(rows: Seq<Row>, id: Seq<char>) -> Seq<char> {
    match latest_name(rows, id) {
        Some(c) => c.name,
        None => Seq::empty(),
    }
}

/// The id occurs among the standings.
pub open spec fn occurs(standings: Seq<Standing>, id: Seq<char>) -> bool {
    exists|i: int| 0 <= i < standings.len() && (#[trigger] standings[i]).id@ == id
}

/// The id occurs among the rows.
pub open spec fn mentions(rows: Seq<Row>, id: Seq<char>) -> bool {
    exists|i: int| 0 <= i < rows.len() && (#[trigger] rows[i]).standing.id@ == id
}

/// A count that stops at the largest value of its type.
pub open spec fn saturated(n: nat) -> u32 {
    if n <= u32::MAX {
        n as u32
    } else {
        u32::MAX
    }
}

/// The standings reconcile the rows: in canonical order, one for each id that occurs, with its kills
/// added up and its latest name that is not empty.
pub open spec fn reconciles(standings: Seq<Standing>, rows: Seq<Row>) -> bool {
    &&& in_order(standings)
    &&& forall|i: int, j: int|
        0 <= i < j < standings.len() ==> (#[trigger] standings[i]).id@ != (
        #[trigger] standings[j]).id@
    &&& forall|id: Seq<char>| #[trigger] occurs(standings, id) <==> mentions(rows, id)
    &&& forall|i: int|
        0 <= i < standings.len() ==> (#[trigger] standings[i]).kills == saturated(
            kills_of(rows, standings[i].id@),
        ) && standings[i].name@ == name_of(rows, standings[i].id@)
}

/// The standings of a board, each with its tick.
pub open spec fn dated(standings: Seq<Standing>, tick: u64) -> Seq<Row> {
    standings.map_values(|s: Standing| Row { tick, standing: s })
}

/// The rows of all boards, one board after the other.
pub open spec fn all_rows(boards: Seq<Leaderboard>) -> Seq<Row>
    decreases boards.len(),
{
    if boards.len() == 0 {
        Seq::empty()
    } else {
        all_rows(boards.drop_last()) + dated(boards.last().standings@, boards.last().tick)
    }
}

/// The latest tick of some boards.
pub open spec fn latest_tick(boards: Seq<Leaderboard>) -> u64
    decreases boards.len(),
{
    if boards.len() == 0 {
        0
    } else {
        let t = latest_tick(boards.drop_last());
        if t < boards.last().tick {
            boards.last().tick
        } else {
            t
        }
    }
}

/// What is added up for a player: the latest name, the tick at which it was in use, and the kills.
struct Tally {
    name: String,
    tick: u64,
    kills: u32,
}

/// The name that a tally holds.
spec fn held(t: Tally) -> Option<Called> {
    if t.name@.len() > 0 {
        Some(Called { tick: t.tick, name: t.name@ })
    } else {
        None
    }
}

/// What a map of sums holds for the rows that were added to it.
spec fn summed(by_id: Map<Seq<char>, Tally>, rows: Seq<Row>) -> bool {
    &&& forall|id: Seq<char>| #[trigger] by_id.contains_key(id) <==> mentions(rows, id)
    &&& forall|id: Seq<char>| #[trigger]
        by_id.contains_key(id) ==> held(by_id[id]) == latest_name(rows, id) && by_id[id].kills
            == saturated(kills_of(rows, id))
}

proof fn lemma_absent(rows: Seq<Row>, id: Seq<char>)
    requires
        !mentions(rows, id),
    ensures
        kills_of(rows, id) == 0,
        latest_name(rows, id) is None,
    decreases rows.len(),
{
    if rows.len() > 0 {
        let rest = rows.drop_last();
        assert(rows[rows.len() - 1].standing.id@ != id);
        assert(!mentions(rest, id)) by {
            if mentions(rest, id) {
                let i = choose|i: int|
                    0 <= i < rest.len() && (#[trigger] rest[i]).standing.id@ == id;
                assert(rows[i].standing.id@ == id);
            }
        }
        lemma_absent(rest, id);
    }
}

proof fn lemma_mentions_push(rows: Seq<Row>, r: Row, id: Seq<char>)
    ensures
        mentions(rows.push(r), id) <==> mentions(rows, id) || r.standing.id@ == id,
{
    let all = rows.push(r);
    assert(all[rows.len() as int] == r);
    if mentions(rows, id) {
        let i = choose|i: int| 0 <= i < rows.len() && (#[trigger] rows[i]).standing.id@ == id;
        assert(all[i].standing.id@ == id);
    }
    if mentions(all, id) && r.standing.id@ != id {
        let i = choose|i: int| 0 <= i < all.len() && (#[trigger] all[i]).standing.id@ == id;
        assert(rows[i].standing.id@ == id);
    }
}

/// A latest name is a name.
proof fn lemma_named(rows: Seq<Row>, id: Seq<char>)
    ensures
        latest_name(rows, id) matches Some(c) ==> c.name.len() > 0 && exists|i: int|
            0 <= i < rows.len() && names(#[trigger] rows[i], id) && called(rows[i]) == c,
        forall|i: int|
            0 <= i < rows.len() && names(#[trigger] rows[i], id) ==> latest_name(rows, id) is Some
                && !later(called(rows[i]), latest_name(rows, id)->0),
    decreases rows.len(),
{
    if rows.len() > 0 {
        let rest = rows.drop_last();
        let r = rows.last();
        lemma_named(rest, id);
        assert(rows[rows.len() - 1] == r);
        let was = latest_name(rest, id);
        let now = latest_name(rows, id);
        if now is Some && !(names(r, id) && now->0 == called(r)) {
            let i = choose|i: int|
                0 <= i < rest.len() && names(#[trigger] rest[i], id) && called(rest[i]) == now->0;
            assert(rows[i] == rest[i]);
        }
        assert forall|i: int| 0 <= i < rows.len() && names(#[trigger] rows[i], id) implies now is Some
            && !later(called(rows[i]), now->0) by {
            if i < rest.len() {
                assert(rows[i] == rest[i]);
                assert(was is Some);
                lemma_later(called(rows[i]), was->0, now->0);
            } else {
                lemma_later(called(r), called(r), called(r));
            }
        }
    }
}

/// Names are in a strict order.
proof fn lemma_later(a: Called, b: Called, c: Called)
    ensures
        !later(a, a),
        !(later(a, b) && later(b, a)),
        !later(a, b) && !later(b, a) ==> a == b,
        !later(a, b) && later(c, b) ==> !later(a, c),
{
    lemma_all_orders(a.name, b.name, c.name);
}

proof fn lemma_summed_step(before: Map<Seq<char>, Tally>, rows: Seq<Row>, r: Row, t: Tally)
    requires
        summed(before, rows),
        ({
            let best = if before.contains_key(r.standing.id@) {
                held(before[r.standing.id@])
            } else {
                None
            };
            held(t) == (if names(r, r.standing.id@) && (best is None || later(
                called(r),
                best->0,
            )) {
                Some(called(r))
            } else {
                best
            })
        }),
        t.kills == saturated(
            (r.standing.kills + (if before.contains_key(r.standing.id@) {
                before[r.standing.id@].kills as int
            } else {
                0
            })) as nat,
        ),
    ensures
        summed(before.insert(r.standing.id@, t), rows.push(r)),
{
    let own = r.standing.id@;
    let after = before.insert(own, t);
    let all = rows.push(r);
    assert(all.drop_last() =~= rows);
    assert forall|id: Seq<char>| #[trigger] after.contains_key(id) <==> mentions(all, id) by {
        lemma_mentions_push(rows, r, id);
        assert(before.contains_key(id) <==> mentions(rows, id));
    }
    assert forall|id: Seq<char>| #[trigger] after.contains_key(id) implies held(after[id])
        == latest_name(all, id) && after[id].kills == saturated(kills_of(all, id)) by {
        assert(before.contains_key(id) <==> mentions(rows, id));
        if id == own && !before.contains_key(id) {
            lemma_absent(rows, id);
        }
    }
}

impl Leaderboard {
    /// A canonical board of some rows of id, name and kills.
    pub fn from_scores(galaxy: &str, tick: u64, rows: Vec<(String, String, u32)>) -> (b: Self)
        ensures
            b.galaxy@ == galaxy@,
            b.tick == tick,
            b.standings@ == stably_sorted(
                rows@.map_values(|r: (String, String, u32)| standing_of(r)),
            ),
    {
        let ghost all = rows@;
        let ghost f = |r: (String, String, u32)| standing_of(r);
        let mut standings: Vec<Standing> = Vec::new();
        assert(all.subrange(0, all.len() as int) =~= all);
        assert(standings@ =~= all.subrange(0, 0).map_values(f));
        for row in rest: rows
            invariant
                rest.seq() == all,
                f == (|r: (String, String, u32)| standing_of(r)),
                standings@ == all.subrange(0, rest.index()).map_values(f),
        {
            let (id, name, kills): (String, String, u32) = row;
            standings.push(Standing { id, name, kills });
            assert(standings@ =~= all.subrange(0, rest.index() + 1).map_values(f));
        }
        Leaderboard { galaxy: galaxy.to_string(), tick, standings: sort_stably(standings) }
    }

    /// One galaxy board out of the boards of the sectors. The kills of a player who appears in
    /// several are added up, their latest name that is not empty stays, and the tick is the latest. A
    /// name is as late as the board that it stands on; of two names of one tick the one stays that
    /// comes after the other in the order of texts.
    pub fn merge(galaxy: &str, boards: Vec<Leaderboard>) -> (b: Self)
        ensures
            b.galaxy@ == galaxy@,
            b.tick == latest_tick(boards@),
            reconciles(b.standings@, all_rows(boards@)),
    {
        let ghost all = boards@;
        let mut by_id: SortedMap<String, Tally> = SortedMap::new();
        let mut tick: u64 = 0;
        let mut i: usize = 0;
        while i < boards.len()
            invariant
                i <= all.len(),
                all == boards@,
                by_id.wf(),
                tick == latest_tick(all.subrange(0, i as int)),
                summed(by_id@, all_rows(all.subrange(0, i as int))),
            decreases all.len() - i,
        {
            let b = &boards[i];
            let ghost before = all_rows(all.subrange(0, i as int));
            let ghost own = dated(b.standings@, b.tick);
            proof {
                assert(all.subrange(0, i + 1).drop_last() =~= all.subrange(0, i as int));
                assert(all_rows(all.subrange(0, i + 1)) == before + own);
                assert(before + own.subrange(0, 0) =~= before);
            }
            if tick < b.tick {
                tick = b.tick;
            }
            let mut k: usize = 0;
            while k < b.standings.len()
                invariant
                    k <= b.standings@.len(),
                    by_id.wf(),
                    own == dated(b.standings@, b.tick),
                    summed(by_id@, before + own.subrange(0, k as int)),
                decreases b.standings@.len() - k,
            {
                let s = &b.standings[k];
                let was: Tally = match by_id.get(&s.id) {
                    Some(e) => Tally { name: e.name.clone(), tick: e.tick, kills: e.kills },
                    None => Tally { name: String::new(), tick: 0, kills: 0 },
                };
                let kills: u32 = was.kills.saturating_add(s.kills);
                let renamed: bool = !s.name.as_str().is_empty() && (was.name.as_str().is_empty()
                    || b.tick > was.tick || (b.tick == was.tick && text_less(
                    was.name.as_str(),
                    s.name.as_str(),
                )));
                let now: Tally = if renamed {
                    Tally { name: s.name.clone(), tick: b.tick, kills }
                } else {
                    Tally { name: was.name, tick: was.tick, kills }
                };
                proof {
                    let rows = before + own.subrange(0, k as int);
                    let r = Row { tick: b.tick, standing: *s };
                    assert(own[k as int] == r);
                    assert(was.name@.len() == 0 ==> held(was) is None);
                    lemma_summed_step(by_id@, rows, r, now);
                    assert(rows.push(r) =~= before + own.subrange(0, k + 1));
                }
                let _ = by_id.insert(s.id.clone(), now);
                k = k + 1;
            }
            proof {
                assert(own.subrange(0, k as int) =~= own);
            }
            i = i + 1;
        }
        let ghost rows = all_rows(all);
        proof {
            assert(all.subrange(0, i as int) =~= all);
            by_id.lemma_orders();
        }
        let ghost keys = by_id.key_order();
        let ghost sums = by_id.value_order();
        let mut out: Vec<(String, String, u32)> = Vec::new();
        let mut k: usize = 0;
        while k < by_id.len()
            invariant
                k <= keys.len(),
                by_id.wf(),
                keys == by_id.key_order(),
                sums == by_id.value_order(),
                keys.len() == sums.len(),
                out@.len() == k,
                forall|j: int|
                    0 <= j < k ==> (#[trigger] out@[j]).0 == keys[j] && out@[j].1 == sums[j].name
                        && out@[j].2 == sums[j].kills,
            decreases keys.len() - k,
        {
            let id: String = by_id.keys()[k].clone();
            let name: String = by_id.values()[k].name.clone();
            let kills: u32 = by_id.values()[k].kills;
            out.push((id, name, kills));
            k = k + 1;
        }
        let ghost listed = out@.map_values(|r: (String, String, u32)| standing_of(r));
        let board = Leaderboard::from_scores(galaxy, tick, out);
        proof {
            lemma_reconciled(board.standings@, listed, keys, sums, by_id@, rows);
        }
        board
    }
}

proof fn lemma_reconciled(
    sorted: Seq<Standing>,
    listed: Seq<Standing>,
    keys: Seq<String>,
    sums: Seq<Tally>,
    by_id: Map<Seq<char>, Tally>,
    rows: Seq<Row>,
)
    requires
        sorted == stably_sorted(listed),
        keys.len() == sums.len() == listed.len(),
        views(keys).no_duplicates(),
        by_id.dom() == views(keys).to_set(),
        forall|i: int|
            #![trigger keys[i]]
            0 <= i < keys.len() ==> by_id.contains_pair(keys[i]@, sums[i]),
        forall|j: int|
            0 <= j < listed.len() ==> (#[trigger] listed[j]).id == keys[j] && listed[j].name
                == sums[j].name && listed[j].kills == sums[j].kills,
        summed(by_id, rows),
    ensures
        reconciles(sorted, rows),
{
    lemma_stably_sorted(listed);
    assert forall|i: int, j: int| 0 <= i < j < listed.len() implies (#[trigger] listed[i]).id@ != (
    #[trigger] listed[j]).id@ by {
        assert(views(keys)[i] != views(keys)[j]);
    }
    lemma_sorted_distinct(listed);
    assert forall|id: Seq<char>| #[trigger] occurs(sorted, id) <==> mentions(rows, id) by {
        assert(by_id.contains_key(id) <==> mentions(rows, id));
        if occurs(sorted, id) {
            let i = choose|i: int| 0 <= i < sorted.len() && (#[trigger] sorted[i]).id@ == id;
            lemma_sorted_contains(listed, sorted[i]);
            let j = choose|j: int| 0 <= j < listed.len() && listed[j] == sorted[i];
            assert(listed[j].id == keys[j]);
            assert(by_id.contains_pair(keys[j]@, sums[j]));
        }
        if by_id.contains_key(id) {
            assert(views(keys).contains(id));
            let j = choose|j: int| 0 <= j < views(keys).len() && views(keys)[j] == id;
            assert(listed[j].id == keys[j]);
            lemma_sorted_contains(listed, listed[j]);
            let i = choose|i: int| 0 <= i < sorted.len() && sorted[i] == listed[j];
            assert(sorted[i].id@ == id);
        }
    }
    assert forall|i: int| 0 <= i < sorted.len() implies (#[trigger] sorted[i]).kills == saturated(
        kills_of(rows, sorted[i].id@),
    ) && sorted[i].name@ == name_of(rows, sorted[i].id@) by {
        lemma_sorted_contains(listed, sorted[i]);
        assert(sorted.contains(sorted[i]));
        let j = choose|j: int| 0 <= j < listed.len() && listed[j] == sorted[i];
        assert(listed[j].id == keys[j]);
        assert(by_id.contains_pair(keys[j]@, sums[j]));
        assert(by_id.contains_key(keys[j]@));
        lemma_named(rows, keys[j]@);
        assert(sums[j].name@.len() == 0 ==> sums[j].name@ =~= Seq::<char>::empty());
    }
}

/// Sorting standings with distinct ids leaves them distinct.
proof fn lemma_sorted_distinct(listed: Seq<Standing>)
    requires
        forall|i: int, j: int|
            0 <= i < j < listed.len() ==> (#[trigger] listed[i]).id@ != (
            #[trigger] listed[j]).id@,
    ensures
        ({
            let sorted = stably_sorted(listed);
            forall|i: int, j: int|
                0 <= i < j < sorted.len() ==> (#[trigger] sorted[i]).id@ != (
                #[trigger] sorted[j]).id@
        }),
    decreases listed.len(),
{
    if listed.len() > 0 {
        let rest = listed.drop_last();
        let x = listed.last();
        assert forall|i: int, j: int| 0 <= i < j < rest.len() implies (#[trigger] rest[i]).id@ != (
        #[trigger] rest[j]).id@ by {
            assert(listed[i].id@ != listed[j].id@);
        }
        lemma_sorted_distinct(rest);
        lemma_stably_sorted(rest);
        let before = stably_sorted(rest);
        let sorted = stably_sorted(listed);
        let at = crate::sort::slot(before, x);
        crate::sort::lemma_slot(before, x);
        assert forall|i: int| 0 <= i < before.len() implies (#[trigger] before[i]).id@ != x.id@ by {
            lemma_sorted_contains(rest, before[i]);
            assert(before.contains(before[i]));
            let j = choose|j: int| 0 <= j < rest.len() && rest[j] == before[i];
            assert(listed[j].id@ != listed[listed.len() - 1].id@);
        }
        assert forall|i: int, j: int| 0 <= i < j < sorted.len() implies (#[trigger] sorted[i]).id@
            != (#[trigger] sorted[j]).id@ by {
            let a = if i < at {
                i
            } else {
                i - 1
            };
            let b = if j < at {
                j
            } else {
                j - 1
            };
            if i != at {
                assert(sorted[i] == before[a]);
            }
            if j != at {
                assert(sorted[j] == before[b]);
            }
        }
    }
}

/// A standing as a JSON object.
pub open spec fn standing_text(s: StandingView) -> Seq<char> {
    "{\"id\":"@ + (json_text(s.id) + (",\"name\":"@ + (json_text(s.name) + (",\"kills\":"@ + (dec(
        s.kills as nat,
    ) + seq!['}'])))))
}

/// The standings from the second one on, and the end of the board.
pub open spec fn rest_text(s: Seq<StandingView>) -> Seq<char>
    decreases s.len(),
{
    if s.len() == 0 {
        seq![']', '}']
    } else {
        seq![','] + (standing_text(s[0]) + rest_text(s.subrange(1, s.len() as int)))
    }
}

/// The standings, and the end of the board.
pub open spec fn standings_text(s: Seq<StandingView>) -> Seq<char> {
    if s.len() == 0 {
        seq![']', '}']
    } else {
        standing_text(s[0]) + rest_text(s.subrange(1, s.len() as int))
    }
}

/// A board as a JSON object: the canonical text.
pub open spec fn board_text(b: LeaderboardView) -> Seq<char> {
    "{\"galaxy\":"@ + (json_text(b.galaxy) + (",\"tick\":"@ + (dec(b.tick as nat)
        + (",\"standings\":["@ + standings_text(b.standings)))))
}

/// The canonical bytes of a board.
pub open spec fn board_bytes(b: LeaderboardView) -> Seq<u8> {
    encode_utf8(board_text(b))
}

fn push_standing(out: &mut String, s: &Standing) -> (r: Result<(), serde_json::Error>)
    ensures
        r is Ok,
        final(out)@ == old(out)@ + standing_text(s@),
{
    let ghost o = out@;
    out.append("{\"id\":");
    push_json_string(out, s.id.as_str())?;
    out.append(",\"name\":");
    push_json_string(out, s.name.as_str())?;
    out.append(",\"kills\":");
    push_dec(out, s.kills as u64);
    out.push('}');
    proof {
        let t6 = dec(s.kills as nat) + seq!['}'];
        let t5 = ",\"kills\":"@ + t6;
        let t4 = json_text(s.name@) + t5;
        let t3 = ",\"name\":"@ + t4;
        let t2 = json_text(s.id@) + t3;
        let o1 = o + "{\"id\":"@;
        let o2 = o1 + json_text(s.id@);
        let o3 = o2 + ",\"name\":"@;
        let o4 = o3 + json_text(s.name@);
        let o5 = o4 + ",\"kills\":"@;
        let o6 = o5 + dec(s.kills as nat);
        assert(out@ =~= o6 + seq!['}']);
        lemma_regroup(o5, dec(s.kills as nat), seq!['}']);
        lemma_regroup(o4, ",\"kills\":"@, t6);
        lemma_regroup(o3, json_text(s.name@), t5);
        lemma_regroup(o2, ",\"name\":"@, t4);
        lemma_regroup(o1, json_text(s.id@), t3);
        lemma_regroup(o, "{\"id\":"@, t2);
    }
    Ok(())
}

proof fn lemma_regroup(a: Seq<char>, b: Seq<char>, c: Seq<char>)
    ensures
        (a + b) + c == a + (b + c),
{
    assert((a + b) + c =~= a + (b + c));
}

impl Leaderboard {
    /// The canonical bytes of the board, to be stored under their content id: JSON with a fixed
    /// order of fields.
    pub fn encode(&self) -> (r: Result<Vec<u8>, serde_json::Error>)
        ensures
            r is Ok,
            r->Ok_0@ == board_bytes(self@),
    {
        let mut out: String = String::new();
        out.append("{\"galaxy\":");
        push_json_string(&mut out, self.galaxy.as_str())?;
        out.append(",\"tick\":");
        push_dec(&mut out, self.tick);
        out.append(",\"standings\":[");
        let ghost all = views(self.standings@);
        let ghost head = out@;
        let n: usize = self.standings.len();
        if n > 0 {
            push_standing(&mut out, &self.standings[0])?;
            let mut i: usize = 1;
            proof {
                lemma_regroup(head, standing_text(all[0]), rest_text(all.subrange(1, n as int)));
            }
            while i < n
                invariant
                    1 <= i <= n,
                    n == self.standings@.len(),
                    all == views(self.standings@),
                    out@ + rest_text(all.subrange(i as int, n as int)) == head + standings_text(
                        all,
                    ),
                decreases n - i,
            {
                let ghost o = out@;
                let ghost left = all.subrange(i as int, n as int);
                out.push(',');
                push_standing(&mut out, &self.standings[i])?;
                proof {
                    let rest = rest_text(left.subrange(1, left.len() as int));
                    assert(left[0] == all[i as int]);
                    assert(left.subrange(1, left.len() as int) =~= all.subrange(
                        i + 1,
                        n as int,
                    ));
                    assert(o.push(',') =~= o + seq![',']);
                    lemma_regroup(o + seq![','], standing_text(left[0]), rest);
                    lemma_regroup(o, seq![','], standing_text(left[0]) + rest);
                }
                i = i + 1;
            }
            assert(all.subrange(i as int, n as int) =~= Seq::<StandingView>::empty());
        } else {
            assert(all =~= Seq::<StandingView>::empty());
        }
        let ghost o = out@;
        out.push(']');
        out.push('}');
        proof {
            assert(out@ =~= o + seq![']', '}']);
            let e = Seq::<char>::empty();
            let g = json_text(self.galaxy@);
            let t = dec(self.tick as nat);
            let s5 = ",\"standings\":["@ + standings_text(all);
            let s4 = t + s5;
            let s3 = ",\"tick\":"@ + s4;
            let s2 = g + s3;
            assert(head =~= "{\"galaxy\":"@ + g + ",\"tick\":"@ + t + ",\"standings\":["@);
            let h1 = "{\"galaxy\":"@ + g;
            let h2 = h1 + ",\"tick\":"@;
            let h3 = h2 + t;
            lemma_regroup(h3, ",\"standings\":["@, standings_text(all));
            lemma_regroup(h2, t, s5);
            lemma_regroup(h1, ",\"tick\":"@, s4);
            lemma_regroup("{\"galaxy\":"@, g, s3);
            assert(out@ == board_text(self@));
        }
        Ok(out.as_str().as_bytes_vec())
    }

    /// A short fingerprint of the canonical bytes, for display and quick comparison.
    pub fn digest(&self) -> (h: u64)
        ensures
            h == fnv64_from(FNV64_BASIS, board_bytes(self@)),
    {
        let bytes: Vec<u8> = match self.encode() {
            Ok(b) => b,
            Err(_) => Vec::new(),
        };
        fnv64(FNV64_BASIS, bytes.as_slice())
    }

    /// The first standing, if there is one.
    pub fn champion(&self) -> (r: Option<&Standing>)
        ensures
            match r {
                Some(s) => self.standings@.len() > 0 && *s == self.standings@[0],
                None => self.standings@.len() == 0,
            },
    {
        if self.standings.len() > 0 {
            Some(&self.standings[0])
        } else {
            None
        }
    }
}

/// The tag of a sealed board.
#[derive(Debug, Clone, Copy, PartialEq, Eq, Structural)]
pub enum CommitTag {
    Seal,
}

impl Default for CommitTag {
    fn default() -> (t: Self)
        ensures
            t == CommitTag::Seal,
    {
        CommitTag::Seal
    }
}

/// A board sealed against the chain: the content id of its bytes, bound to a block.
#[derive(Debug, PartialEq, Eq)]
pub struct Commitment {
    pub t: CommitTag,
    pub galaxy: String,
    pub tick: u64,
    /// The content id of the canonical bytes.
    pub cid: String,
    /// The fingerprint of the same bytes.
    pub digest: u64,
    /// The height of the chain when the board was sealed.
    pub height: u64,
    /// The hash of the block at that height.
    pub beacon_hash: String,
    /// The host that made the seal.
    pub host: String,
}

/// The commitment is one to the board: the same galaxy, tick and fingerprint.
pub open spec fn seals(c: Commitment, b: LeaderboardView) -> bool {
    c.galaxy@ == b.galaxy && c.tick == b.tick && c.digest == fnv64_from(
        FNV64_BASIS,
        board_bytes(b),
    )
}

/// A commitment as a JSON object.
pub open spec fn commitment_text(c: Commitment) -> Seq<char> {
    "{\"t\":\"seal\",\"galaxy\":"@ + json_text(c.galaxy@) + ",\"tick\":"@ + dec(c.tick as nat)
        + ",\"cid\":"@ + json_text(c.cid@) + ",\"digest\":"@ + dec(c.digest as nat)
        + ",\"height\":"@ + dec(c.height as nat) + ",\"beacon_hash\":"@ + json_text(
        c.beacon_hash@,
    ) + ",\"host\":"@ + json_text(c.host@) + seq!['}']
}

impl Commitment {
    /// Seals a board under a content id at a block.
    pub fn seal(board: &Leaderboard, cid: &str, height: u64, beacon_hash: &str, host: &str) -> (c:
        Self)
        ensures
            seals(c, board@),
            c.t == CommitTag::Seal,
            c.galaxy@ == board.galaxy@,
            c.tick == board.tick,
            c.cid@ == cid@,
            c.digest == fnv64_from(FNV64_BASIS, board_bytes(board@)),
            c.height == height,
            c.beacon_hash@ == beacon_hash@,
            c.host@ == host@,
    {
        Commitment {
            t: CommitTag::Seal,
            galaxy: board.galaxy.clone(),
            tick: board.tick,
            cid: cid.to_string(),
            digest: board.digest(),
            height,
            beacon_hash: beacon_hash.to_string(),
            host: host.to_string(),
        }
    }

    /// Is the board the one that was sealed? A fingerprint that differs means that it was changed
    /// after it was sealed.
    pub fn verifies(&self, board: &Leaderboard) -> (r: bool)
        ensures
            r == seals(*self, board@),
    {
        same_text(self.galaxy.as_str(), board.galaxy.as_str()) && self.tick == board.tick
            && self.digest == board.digest()
    }

    /// The bytes that are published.
    pub fn encode(&self) -> (r: Result<Vec<u8>, serde_json::Error>)
        ensures
            r is Ok,
            r->Ok_0@ == encode_utf8(commitment_text(*self)),
    {
        let mut out: String = String::new();
        out.append("{\"t\":\"seal\",\"galaxy\":");
        assert(out@ =~= "{\"t\":\"seal\",\"galaxy\":"@);
        push_json_string(&mut out, self.galaxy.as_str())?;
        out.append(",\"tick\":");
        push_dec(&mut out, self.tick);
        out.append(",\"cid\":");
        push_json_string(&mut out, self.cid.as_str())?;
        out.append(",\"digest\":");
        push_dec(&mut out, self.digest);
        out.append(",\"height\":");
        push_dec(&mut out, self.height);
        out.append(",\"beacon_hash\":");
        push_json_string(&mut out, self.beacon_hash.as_str())?;
        out.append(",\"host\":");
        push_json_string(&mut out, self.host.as_str())?;
        let ghost o = out@;
        out.push('}');
        assert(out@ =~= o + seq!['}']);
        Ok(out.as_str().as_bytes_vec())
    }
}

/// A commitment verifies the board that it seals.
pub proof fn law_seal_verifies(c: Commitment, b: LeaderboardView)
    requires
        c.galaxy@ == b.galaxy,
        c.tick == b.tick,
        c.digest == fnv64_from(FNV64_BASIS, board_bytes(b)),
    ensures
        seals(c, b),
        forall|other: LeaderboardView|
            #![trigger seals(c, other)]
            other.tick != b.tick || other.galaxy != b.galaxy ==> !seals(c, other),
{
}

proof fn lemma_standing_prefix_free(
    a: StandingView,
    b: StandingView,
    x: Seq<char>,
    y: Seq<char>,
)
    requires
        standing_text(a) + x == standing_text(b) + y,
    ensures
        a == b,
        x == y,
{
    let (ka, kb) = (dec(a.kills as nat), dec(b.kills as nat));
    let (na, nb) = (json_text(a.name), json_text(b.name));
    let (ia, ib) = (json_text(a.id), json_text(b.id));
    let a6 = seq!['}'] + x;
    let b6 = seq!['}'] + y;
    let a5 = ",\"kills\":"@ + (ka + a6);
    let b5 = ",\"kills\":"@ + (kb + b6);
    let a3 = ",\"name\":"@ + (na + a5);
    let b3 = ",\"name\":"@ + (nb + b5);
    assert(standing_text(a) + x =~= "{\"id\":"@ + (ia + a3));
    assert(standing_text(b) + y =~= "{\"id\":"@ + (ib + b3));
    lemma_literal_prefix("{\"id\":"@, ia + a3, ib + b3);
    lemma_json_text_prefix_free(a.id, b.id, a3, b3);
    lemma_literal_prefix(",\"name\":"@, na + a5, nb + b5);
    lemma_json_text_prefix_free(a.name, b.name, a5, b5);
    lemma_literal_prefix(",\"kills\":"@, ka + a6, kb + b6);
    lemma_dec_prefix_free(a.kills as nat, b.kills as nat, a6, b6);
    lemma_literal_prefix(seq!['}'], x, y);
}

proof fn lemma_rest_injective(a: Seq<StandingView>, b: Seq<StandingView>)
    requires
        rest_text(a) == rest_text(b),
    ensures
        a == b,
    decreases a.len(),
{
    assert(rest_text(a)[0] == (if a.len() == 0 {
        ']'
    } else {
        ','
    }));
    assert(rest_text(b)[0] == (if b.len() == 0 {
        ']'
    } else {
        ','
    }));
    if a.len() == 0 {
        assert(a =~= b);
    } else {
        let a1 = a.subrange(1, a.len() as int);
        let b1 = b.subrange(1, b.len() as int);
        lemma_literal_prefix(
            seq![','],
            standing_text(a[0]) + rest_text(a1),
            standing_text(b[0]) + rest_text(b1),
        );
        lemma_standing_prefix_free(a[0], b[0], rest_text(a1), rest_text(b1));
        lemma_rest_injective(a1, b1);
        assert(a =~= seq![a[0]] + a1);
        assert(b =~= seq![b[0]] + b1);
    }
}

/// The canonical bytes are a faithful image of the board: boards with the same bytes are the same,
/// so an edit of any score, name, id, tick or galaxy changes the bytes.
pub proof fn law_bytes_are_faithful(a: LeaderboardView, b: LeaderboardView)
    requires
        board_bytes(a) == board_bytes(b),
    ensures
        a == b,
{
    encode_utf8_decode_utf8(board_text(a));
    encode_utf8_decode_utf8(board_text(b));
    reveal_strlit(",\"standings\":[");
    let (ta, tb) = (dec(a.tick as nat), dec(b.tick as nat));
    let (ga, gb) = (json_text(a.galaxy), json_text(b.galaxy));
    let a5 = ",\"standings\":["@ + standings_text(a.standings);
    let b5 = ",\"standings\":["@ + standings_text(b.standings);
    let a3 = ",\"tick\":"@ + (ta + a5);
    let b3 = ",\"tick\":"@ + (tb + b5);
    lemma_literal_prefix("{\"galaxy\":"@, ga + a3, gb + b3);
    lemma_json_text_prefix_free(a.galaxy, b.galaxy, a3, b3);
    lemma_literal_prefix(",\"tick\":"@, ta + a5, tb + b5);
    assert(a5[0] == ',' && b5[0] == ',');
    lemma_dec_prefix_free(a.tick as nat, b.tick as nat, a5, b5);
    lemma_literal_prefix(
        ",\"standings\":["@,
        standings_text(a.standings),
        standings_text(b.standings),
    );
    let (sa, sb) = (a.standings, b.standings);
    reveal_strlit("{\"id\":");
    if sa.len() > 0 {
        assert(standings_text(sa)[0] == '{');
    } else {
        assert(standings_text(sa)[0] == ']');
    }
    if sb.len() > 0 {
        assert(standings_text(sb)[0] == '{');
    } else {
        assert(standings_text(sb)[0] == ']');
    }
    if sa.len() > 0 {
        let a1 = sa.subrange(1, sa.len() as int);
        let b1 = sb.subrange(1, sb.len() as int);
        lemma_standing_prefix_free(sa[0], sb[0], rest_text(a1), rest_text(b1));
        lemma_rest_injective(a1, b1);
        assert(sa =~= seq![sa[0]] + a1);
        assert(sb =~= seq![sb[0]] + b1);
    } else {
        assert(sa =~= sb);
    }
    assert(a =~= b);
}

/// The same rows give the same board in whatever order they come.
pub proof fn law_board_order_independent(a: Seq<Standing>, b: Seq<Standing>)
    requires
        views(a).to_multiset() == views(b).to_multiset(),
    ensures
        views(stably_sorted(a)) == views(stably_sorted(b)),
{
    assert forall|x: Standing, y: Standing|
        a.contains(x) && a.contains(y) && #[trigger] tied(x, y) implies x@ == y@ by {
        lemma_text_order(x.id@, y.id@, x.id@);
        lemma_text_order(x.name@, y.name@, x.name@);
    }
    law_sort_shows_alike(a, b);
}

impl Ordered for Standing {
    open spec fn below(a: StandingView, b: StandingView) -> bool {
        ranks_above(a, b)
    }

    fn is_below(&self, other: &Self) -> (r: bool) {
        self.goes_before(other)
    }

    proof fn below_irreflexive(a: StandingView) {
        lemma_text_order(a.id, a.id, a.id);
        lemma_text_order(a.name, a.name, a.name);
    }

    proof fn below_transitive(a: StandingView, b: StandingView, c: StandingView) {
        lemma_text_order(a.id, b.id, c.id);
        lemma_text_order(a.name, b.name, c.name);
    }

    proof fn below_total(a: StandingView, b: StandingView) {
        lemma_text_order(a.id, b.id, a.id);
        lemma_text_order(a.name, b.name, a.name);
    }
}

proof fn lemma_kills_remove(rows: Seq<Row>, j: int, id: Seq<char>)
    requires
        0 <= j < rows.len(),
    ensures
        kills_of(rows, id) == kills_of(rows.remove(j), id) + (if rows[j].standing.id@ == id {
            rows[j].standing.kills as nat
        } else {
            0
        }),
    decreases rows.len(),
{
    if j == rows.len() - 1 {
        assert(rows.remove(j) =~= rows.drop_last());
    } else {
        let rest = rows.drop_last();
        lemma_kills_remove(rest, j, id);
        let cut = rows.remove(j);
        assert(cut.drop_last() =~= rest.remove(j));
        assert(cut.last() == rows.last());
    }
}

proof fn lemma_kills_permuted(a: Seq<Row>, b: Seq<Row>, id: Seq<char>)
    requires
        a.to_multiset() == b.to_multiset(),
    ensures
        kills_of(a, id) == kills_of(b, id),
    decreases a.len(),
{
    broadcast use vstd::seq_lib::group_to_multiset_ensures;

    assert(a.len() == a.to_multiset().len() && b.len() == b.to_multiset().len());
    if a.len() > 0 {
        let x = a.last();
        assert(a.contains(x));
        assert(b.to_multiset().count(x) > 0);
        let j = choose|j: int| 0 <= j < b.len() && b[j] == x;
        lemma_kills_remove(b, j, id);
        assert(a =~= a.drop_last().push(x));
        assert(a.drop_last().to_multiset() =~= a.to_multiset().remove(x));
        lemma_kills_permuted(a.drop_last(), b.remove(j), id);
    }
}

proof fn lemma_same_rows(a: Seq<Row>, b: Seq<Row>, i: int) -> (j: int)
    requires
        a.to_multiset() == b.to_multiset(),
        0 <= i < a.len(),
    ensures
        0 <= j < b.len(),
        b[j] == a[i],
{
    broadcast use vstd::seq_lib::group_to_multiset_ensures;

    assert(a.contains(a[i]));
    assert(b.to_multiset().count(a[i]) > 0);
    choose|j: int| 0 <= j < b.len() && b[j] == a[i]
}

proof fn lemma_name_permuted(a: Seq<Row>, b: Seq<Row>, id: Seq<char>)
    requires
        a.to_multiset() == b.to_multiset(),
    ensures
        name_of(a, id) == name_of(b, id),
        mentions(a, id) <==> mentions(b, id),
{
    lemma_named(a, id);
    lemma_named(b, id);
    if mentions(a, id) {
        let i = choose|i: int| 0 <= i < a.len() && (#[trigger] a[i]).standing.id@ == id;
        let j = lemma_same_rows(a, b, i);
        assert(b[j].standing.id@ == id);
    }
    if mentions(b, id) {
        let i = choose|i: int| 0 <= i < b.len() && (#[trigger] b[i]).standing.id@ == id;
        let j = lemma_same_rows(b, a, i);
        assert(a[j].standing.id@ == id);
    }
    if let Some(c) = latest_name(a, id) {
        let i = choose|i: int|
            0 <= i < a.len() && names(#[trigger] a[i], id) && called(a[i]) == c;
        let j = lemma_same_rows(a, b, i);
        assert(names(b[j], id));
    }
    if let Some(d) = latest_name(b, id) {
        let i = choose|i: int|
            0 <= i < b.len() && names(#[trigger] b[i], id) && called(b[i]) == d;
        let j = lemma_same_rows(b, a, i);
        assert(names(a[j], id));
        lemma_later(latest_name(a, id)->0, d, d);
    }
}

proof fn lemma_boards_remove(boards: Seq<Leaderboard>, j: int)
    requires
        0 <= j < boards.len(),
    ensures
        all_rows(boards).to_multiset() == all_rows(boards.remove(j)).to_multiset().add(
            dated(boards[j].standings@, boards[j].tick).to_multiset(),
        ),
    decreases boards.len(),
{
    let last = dated(boards.last().standings@, boards.last().tick);
    let rest = boards.drop_last();
    vstd::seq_lib::lemma_multiset_commutative(all_rows(rest), last);
    if j == boards.len() - 1 {
        assert(boards.remove(j) =~= rest);
    } else {
        lemma_boards_remove(rest, j);
        let cut = boards.remove(j);
        assert(cut.drop_last() =~= rest.remove(j));
        assert(cut.last() == boards.last());
        vstd::seq_lib::lemma_multiset_commutative(all_rows(rest.remove(j)), last);
        assert(all_rows(boards).to_multiset() =~= all_rows(cut).to_multiset().add(
            dated(boards[j].standings@, boards[j].tick).to_multiset(),
        ));
    }
}

proof fn lemma_boards_permuted(a: Seq<Leaderboard>, b: Seq<Leaderboard>)
    requires
        a.to_multiset() == b.to_multiset(),
    ensures
        all_rows(a).to_multiset() == all_rows(b).to_multiset(),
    decreases a.len(),
{
    broadcast use vstd::seq_lib::group_to_multiset_ensures;

    assert(a.len() == a.to_multiset().len() && b.len() == b.to_multiset().len());
    if a.len() > 0 {
        let x = a.last();
        assert(a.contains(x));
        assert(b.to_multiset().count(x) > 0);
        let j = choose|j: int| 0 <= j < b.len() && b[j] == x;
        lemma_boards_remove(b, j);
        lemma_boards_remove(a, a.len() - 1);
        assert(a.remove(a.len() - 1) =~= a.drop_last());
        assert(a =~= a.drop_last().push(x));
        assert(a.drop_last().to_multiset() =~= a.to_multiset().remove(x));
        lemma_boards_permuted(a.drop_last(), b.remove(j));
    } else {
        assert(a =~= b);
    }
}

proof fn lemma_reconciled_ascending(s: Seq<Standing>, rows: Seq<Row>)
    requires
        reconciles(s, rows),
    ensures
        crate::order::ascending(s),
{
    assert forall|i: int, j: int| 0 <= i < j < s.len() implies #[trigger] Standing::below(
        s[i]@,
        s[j]@,
    ) by {
        assert(!s[j].before(&s[i]));
        assert(s[i].id@ != s[j].id@);
        lemma_text_order(s[i].id@, s[j].id@, s[i].id@);
    }
}

proof fn lemma_same_board(
    s: Seq<Standing>,
    t: Seq<Standing>,
    a: Seq<Row>,
    b: Seq<Row>,
    v: StandingView,
)
    requires
        reconciles(s, a),
        reconciles(t, b),
        a.to_multiset() == b.to_multiset(),
        views(s).contains(v),
    ensures
        views(t).contains(v),
{
    let i = choose|i: int| 0 <= i < views(s).len() && views(s)[i] == v;
    assert(s[i]@ == v);
    let id = s[i].id@;
    assert(occurs(s, id));
    lemma_name_permuted(a, b, id);
    lemma_kills_permuted(a, b, id);
    assert(occurs(t, id));
    let j = choose|j: int| 0 <= j < t.len() && (#[trigger] t[j]).id@ == id;
    assert(t[j]@ == v);
    assert(views(t)[j] == v);
}

/// The galaxy board does not depend on the order of the sector boards.
pub proof fn law_merge_order_independent(
    a: Seq<Leaderboard>,
    b: Seq<Leaderboard>,
    s: Seq<Standing>,
    t: Seq<Standing>,
)
    requires
        a.to_multiset() == b.to_multiset(),
        reconciles(s, all_rows(a)),
        reconciles(t, all_rows(b)),
    ensures
        views(s) == views(t),
        latest_tick(a) == latest_tick(b),
{
    lemma_boards_permuted(a, b);
    let ra = all_rows(a);
    let rb = all_rows(b);
    assert forall|v: StandingView| #[trigger] views(s).contains(v) <==> views(t).contains(v) by {
        if views(s).contains(v) {
            lemma_same_board(s, t, ra, rb, v);
        }
        if views(t).contains(v) {
            lemma_same_board(t, s, rb, ra, v);
        }
    }
    lemma_reconciled_ascending(s, ra);
    lemma_reconciled_ascending(t, rb);
    crate::order::lemma_ascending_unique(s, t);
    lemma_tick_bound(a, b);
    lemma_tick_bound(b, a);
}

proof fn lemma_tick_bound(a: Seq<Leaderboard>, b: Seq<Leaderboard>)
    requires
        a.to_multiset() == b.to_multiset(),
    ensures
        latest_tick(a) <= latest_tick(b),
{
    broadcast use vstd::seq_lib::group_to_multiset_ensures;

    lemma_tick(a);
    lemma_tick(b);
    if latest_tick(a) > 0 {
        let i = choose|i: int| 0 <= i < a.len() && (#[trigger] a[i]).tick == latest_tick(a);
        assert(a.contains(a[i]));
        assert(b.to_multiset().count(a[i]) > 0);
        let j = choose|j: int| 0 <= j < b.len() && b[j] == a[i];
        assert(b[j].tick <= latest_tick(b));
    }
}

proof fn lemma_tick(a: Seq<Leaderboard>)
    ensures
        forall|i: int| 0 <= i < a.len() ==> (#[trigger] a[i]).tick <= latest_tick(a),
        latest_tick(a) > 0 ==> exists|i: int|
            0 <= i < a.len() && (#[trigger] a[i]).tick == latest_tick(a),
    decreases a.len(),
{
    if a.len() > 0 {
        let rest = a.drop_last();
        lemma_tick(rest);
        assert forall|i: int| 0 <= i < a.len() implies (#[trigger] a[i]).tick <= latest_tick(
            a,
        ) by {
            if i < rest.len() {
                assert(rest[i] == a[i]);
            }
        }
        if latest_tick(a) > 0 {
            if latest_tick(rest) < a.last().tick {
                assert(a[a.len() - 1].tick == latest_tick(a));
            } else {
                let i = choose|i: int|
                    0 <= i < rest.len() && (#[trigger] rest[i]).tick == latest_tick(rest);
                assert(a[i] == rest[i]);
            }
        }
    }
}

/// How standings are ranked: more kills first; of as many, by id, then by name. Nobody is lost or counted twice.
pub proof fn law_more_kills_rank_higher(s: Seq<Standing>, i: int, j: int)
    requires
        0 <= i < j < s.len(),
    ensures
        ({
            let r = stably_sorted(s);
            &&& r.len() == s.len()
            &&& r.to_multiset() == s.to_multiset()
            &&& r[i].kills >= r[j].kills
            &&& r[i].kills == r[j].kills ==> !text_below(r[j].id@, r[i].id@)
            &&& r[i].kills == r[j].kills && r[i].id@ == r[j].id@ ==> !text_below(
                r[j].name@,
                r[i].name@,
            )
        }),
{
    lemma_stably_sorted(s);
    let r = stably_sorted(s);
    assert(!r[j].before(&r[i]));
}

/// What a player has to their name over several boards is the sum of what each board says of them.
pub proof fn law_kills_add_up(rows: Seq<Row>, r: Row, id: Seq<char>)
    ensures
        kills_of(Seq::empty(), id) == 0,
        r.standing.id@ == id ==> kills_of(rows.push(r), id) == kills_of(rows, id) + r.standing.kills,
        r.standing.id@ != id ==> kills_of(rows.push(r), id) == kills_of(rows, id),
{
    assert(rows.push(r).drop_last() =~= rows);
}

/// A player is called what the latest board calls them: no row of a later tick has another name for them, and of one tick
/// the name that comes last in order counts. Rows without a name do not count.
pub proof fn law_latest_name_counts(rows: Seq<Row>, id: Seq<char>, i: int)
    requires
        0 <= i < rows.len(),
        rows[i].standing.id@ == id,
        rows[i].standing.name@.len() > 0,
    ensures
        latest_name(rows, id) matches Some(c) && c.tick >= rows[i].tick && (c.tick == rows[i].tick
            ==> !text_below(c.name, rows[i].standing.name@)) && exists|k: int|
            0 <= k < rows.len() && (#[trigger] rows[k]).standing.id@ == id && rows[k].tick == c.tick
                && rows[k].standing.name@ == c.name && c.name.len() > 0,
        name_of(rows, id) == latest_name(rows, id)->0.name,
    decreases rows.len(),
{
    let rest = rows.drop_last();
    let r = rows.last();
    assert(rows[rows.len() - 1] == r);
    lemma_text_order(r.standing.name@, r.standing.name@, r.standing.name@);
    if i < rest.len() {
        assert(rest[i] == rows[i]);
        law_latest_name_counts(rest, id, i);
        let c = latest_name(rest, id)->0;
        let k = choose|k: int|
            0 <= k < rest.len() && (#[trigger] rest[k]).standing.id@ == id && rest[k].tick == c.tick
                && rest[k].standing.name@ == c.name && c.name.len() > 0;
        assert(rows[k] == rest[k]);
        lemma_text_order(c.name, rows[i].standing.name@, r.standing.name@);
        lemma_text_order(r.standing.name@, rows[i].standing.name@, c.name);
        lemma_text_order(c.name, r.standing.name@, rows[i].standing.name@);
    } else if latest_name(rest, id) is Some {
        lemma_latest_name_stands(rest, id);
        let c = latest_name(rest, id)->0;
        let k = choose|k: int|
            0 <= k < rest.len() && (#[trigger] rest[k]).standing.id@ == id && rest[k].tick == c.tick
                && rest[k].standing.name@ == c.name && c.name.len() > 0;
        assert(rows[k] == rest[k]);
        lemma_text_order(c.name, r.standing.name@, c.name);
        lemma_text_order(r.standing.name@, c.name, r.standing.name@);
    }
}

proof fn lemma_latest_name_stands(rows: Seq<Row>, id: Seq<char>)
    requires
        latest_name(rows, id) is Some,
    ensures
        ({
            let c = latest_name(rows, id)->0;
            exists|k: int|
                0 <= k < rows.len() && (#[trigger] rows[k]).standing.id@ == id && rows[k].tick == c.tick
                    && rows[k].standing.name@ == c.name && c.name.len() > 0
        }),
    decreases rows.len(),
{
    let rest = rows.drop_last();
    let c = latest_name(rows, id)->0;
    assert(rows[rows.len() - 1] == rows.last());
    if latest_name(rest, id) == Some(c) {
        lemma_latest_name_stands(rest, id);
        let k = choose|k: int|
            0 <= k < rest.len() && (#[trigger] rest[k]).standing.id@ == id && rest[k].tick == c.tick
                && rest[k].standing.name@ == c.name && c.name.len() > 0;
        assert(rows[k] == rest[k]);
    }
}

/// The board of several boards is as late as the latest of them, and takes every row of each, dated by its board.
pub proof fn law_boards_are_taken_whole(boards: Seq<Leaderboard>, b: Leaderboard, i: int)
    requires
        0 <= i < b.standings@.len(),
    ensures
        latest_tick(boards.push(b)) >= b.tick,
        latest_tick(boards.push(b)) >= latest_tick(boards),
        latest_tick(boards.push(b)) == b.tick || latest_tick(boards.push(b)) == latest_tick(boards),
        ({
            let before = all_rows(boards);
            let all = all_rows(boards.push(b));
            &&& all.len() == before.len() + b.standings@.len()
            &&& all.take(before.len() as int) == before
            &&& all[before.len() + i].standing == b.standings@[i]
            &&& all[before.len() + i].tick == b.tick
        }),
{
    assert(boards.push(b).drop_last() =~= boards);
    let before = all_rows(boards);
    let all = all_rows(boards.push(b));
    assert(all.take(before.len() as int) =~= before);
}

/// A merged board lists each player of any of the boards once, with all their kills, and no one else; more kills rank
/// higher.
pub proof fn law_merged_boards(s: Seq<Standing>, rows: Seq<Row>, i: int, j: int)
    requires
        reconciles(s, rows),
        0 <= i < j < s.len(),
        kills_of(rows, s[i].id@) <= u32::MAX,
    ensures
        s[i].kills == kills_of(rows, s[i].id@),
        s[i].kills >= s[j].kills,
        s[i].kills == s[j].kills ==> text_below(s[i].id@, s[j].id@),
        exists|k: int| 0 <= k < rows.len() && (#[trigger] rows[k]).standing.id@ == s[i].id@,
{
    assert(!s[j].before(&s[i]));
    assert(s[i].id@ != s[j].id@);
    lemma_text_order(s[i].id@, s[j].id@, s[i].id@);
    assert(occurs(s, s[i].id@));
    assert(mentions(rows, s[i].id@));
}

/// A seal holds of one board: of its galaxy and its tick, and of no board with another digest.
pub proof fn law_seals_hold_of_what_they_name(c: Commitment, b: LeaderboardView)
    requires
        seals(c, b),
    ensures
        c.galaxy@ == b.galaxy,
        c.tick == b.tick,
        c.digest == fnv64_from(0xcbf2_9ce4_8422_2325, encode_utf8(board_text(b))),
        forall|d: LeaderboardView|
            d.tick != b.tick || d.galaxy != b.galaxy ==> !#[trigger] seals(c, d),
{
}

} // verus!
