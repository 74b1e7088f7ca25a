//! How the entities of a cell are shared out among its four children, and gathered again.
//!
//! An entity belongs to the child whose quarter its position lies in. That is a function of the position
//! and of the cell alone, so every host that computes a split agrees on who gets what.
use vstd::prelude::*;

use vstd::arithmetic::power2::lemma_pow2_unfold;

use crate::galaxy::{children_of, span_at, CellId, World, MAX_DEPTH, ROOT_HALF};
use crate::order::SortedMap;
use crate::sort::lemma_filter_push;

verus! {

/// Something with a place in the world and an id.
pub trait Positioned: Sized {
    closed spec fn place(&self) -> (int, int) {
        arbitrary()
    }

    closed spec fn key(&self) -> u64 {
        arbitrary()
    }

    fn pos(&self) -> (p: (World, World))
        ensures
            (p.0 as int, p.1 as int) == self.place(),
    ;

    /// An id that tells entities apart when children are gathered.
    fn entity_id(&self) -> (id: u64)
        ensures
            id == self.key(),
    ;
}

/// The middle of a cell.
pub open spec fn middle(c: CellId) -> (int, int) {
    let s = span_at(c.depth as int);
    (c.x * s - ROOT_HALF + s / 2, c.y * s - ROOT_HALF + s / 2)
}

/// The quarter of a cell that a point lies in, counted north-west, north-east, south-west, south-east.
/// A point outside of the cell falls to the nearest quarter.
pub open spec fn quarter(c: CellId, p: (int, int)) -> int {
    (if p.0 >= middle(c).0 {
        1int
    } else {
        0int
    }) + (if p.1 >= middle(c).1 {
        2int
    } else {
        0int
    })
}

/// The point lies in the footprint of the cell.
pub open spec fn covers_point(c: CellId, p: (int, int)) -> bool {
    let s = span_at(c.depth as int);
    &&& c.x * s - ROOT_HALF <= p.0 < c.x * s - ROOT_HALF + s
    &&& c.y * s - ROOT_HALF <= p.1 < c.y * s - ROOT_HALF + s
}

proof fn lemma_spans_halve(depth: u8)
    requires
        depth < MAX_DEPTH,
    ensures
        span_at(depth as int) == 2 * span_at(depth + 1),
        span_at(depth as int) / 2 == span_at(depth + 1),
        span_at(depth + 1) > 0,
{
    lemma_pow2_unfold((50 - depth) as nat);
    vstd::arithmetic::power2::lemma_pow2_pos((50 - (depth + 1)) as nat);
}

/// A point of a cell lies in the child that it is assigned to.
pub proof fn law_child_covers_its_point(c: CellId, p: (int, int))
    requires
        c.divisible(),
        c.depth < MAX_DEPTH,
        covers_point(c, p),
    ensures
        covers_point(children_of(c)[quarter(c, p)], p),
{
    lemma_spans_halve(c.depth);
    let s = span_at(c.depth as int);
    let h = span_at(c.depth + 1);
    let q = quarter(c, p);
    let k = children_of(c)[q];
    let i = if p.0 >= middle(c).0 {
        1int
    } else {
        0int
    };
    let j = if p.1 >= middle(c).1 {
        1int
    } else {
        0int
    };
    assert(k.x == 2 * c.x + i);
    assert(k.y == 2 * c.y + j);
    assert((2 * c.x + i) * h == c.x * s + i * h) by (nonlinear_arith)
        requires
            s == 2 * h,
    ;
    assert((2 * c.y + j) * h == c.y * s + j * h) by (nonlinear_arith)
        requires
            s == 2 * h,
    ;
}

fn quarter_of<T: Positioned>(parent: CellId, e: &T) -> (q: usize)
    requires
        parent.valid(),
    ensures
        q == quarter(parent, e.place()),
        q < 4,
{
    let (x, y) = e.pos();
    let r = parent.rect();
    proof {
        crate::galaxy::lemma_rect_bounds(parent);
    }
    let (cx, cy) = r.center();
    let east: usize = if x >= cx {
        1
    } else {
        0
    };
    let south: usize = if y >= cy {
        2
    } else {
        0
    };
    east + south
}

/// The child that an entity belongs to.
pub fn child_for<T: Positioned>(parent: CellId, e: &T) -> (c: CellId)
    requires
        parent.valid(),
        parent.depth < MAX_DEPTH,
    ensures
        c == children_of(parent)[quarter(parent, e.place())],
{
    let q: usize = quarter_of(parent, e);
    proof {
        crate::galaxy::lemma_valid_divides(parent);
    }
    let kids = parent.children();
    kids[q]
}

/// The entities of the four children of a cell.
pub struct Quarters<T> {
    pub nw: Vec<T>,
    pub ne: Vec<T>,
    pub sw: Vec<T>,
    pub se: Vec<T>,
}

/// The entities of one quarter.
pub open spec fn of_quarter<T: Positioned>(parent: CellId, q: int) -> spec_fn(T) -> bool {
    |e: T| quarter(parent, e.place()) == q
}

/// Each entity is with the child of its quarter, and their order is kept.
pub open spec fn shared_out<T: Positioned>(r: Quarters<T>, parent: CellId, entities: Seq<T>) -> bool {
    &&& r.nw@ == entities.filter(of_quarter::<T>(parent, 0))
    &&& r.ne@ == entities.filter(of_quarter::<T>(parent, 1))
    &&& r.sw@ == entities.filter(of_quarter::<T>(parent, 2))
    &&& r.se@ == entities.filter(of_quarter::<T>(parent, 3))
}

/// The entities of each child, in the order in which they were given.
pub fn split_entities<T: Positioned>(parent: CellId, entities: Vec<T>) -> (r: Quarters<T>)
    requires
        parent.valid(),
        parent.depth < MAX_DEPTH,
    ensures
        shared_out(r, parent, entities@),
{
    let ghost all = entities@;
    let mut nw: Vec<T> = Vec::new();
    let mut ne: Vec<T> = Vec::new();
    let mut sw: Vec<T> = Vec::new();
    let mut se: Vec<T> = Vec::new();
    let ghost p0 = of_quarter::<T>(parent, 0);
    let ghost p1 = of_quarter::<T>(parent, 1);
    let ghost p2 = of_quarter::<T>(parent, 2);
    let ghost p3 = of_quarter::<T>(parent, 3);
    proof {
        reveal(Seq::filter);
        assert(all.subrange(0, all.len() as int) =~= all);
        assert(all.subrange(0, 0) =~= Seq::<T>::empty());
    }
    for e in rest: entities
        invariant
            parent.valid(),
            rest.seq() == all,
            p0 == of_quarter::<T>(parent, 0),
            p1 == of_quarter::<T>(parent, 1),
            p2 == of_quarter::<T>(parent, 2),
            p3 == of_quarter::<T>(parent, 3),
            nw@ == all.subrange(0, rest.index()).filter(p0),
            ne@ == all.subrange(0, rest.index()).filter(p1),
            sw@ == all.subrange(0, rest.index()).filter(p2),
            se@ == all.subrange(0, rest.index()).filter(p3),
    {
        proof {
            let taken = rest.index();
            let seen = all.subrange(0, taken);
            assert(e == all[taken]);
            assert(all.subrange(0, taken + 1) =~= seen.push(e));
            lemma_filter_push(seen, e, p0);
            lemma_filter_push(seen, e, p1);
            lemma_filter_push(seen, e, p2);
            lemma_filter_push(seen, e, p3);
        }
        let q: usize = quarter_of(parent, &e);
        if q == 0 {
            nw.push(e);
        } else if q == 1 {
            ne.push(e);
        } else if q == 2 {
            sw.push(e);
        } else {
            se.push(e);
        }
    }
    Quarters { nw, ne, sw, se }
}

/// The id occurs among the entities.
pub open spec fn holds_id<T: Positioned>(s: Seq<T>, id: u64) -> bool {
    exists|i: int| 0 <= i < s.len() && (#[trigger] s[i]).key() == id
}

/// The first entity of an id.
pub open spec fn first_of<T: Positioned>(s: Seq<T>, id: u64) -> T
    decreases s.len(),
{
    if s.len() > 0 && !holds_id(s.drop_last(), id) {
        s.last()
    } else if s.len() > 0 {
        first_of(s.drop_last(), id)
    } else {
        arbitrary()
    }
}

/// The entities of several children, one child after the other.
pub open spec fn gathered<T>(children: Quarters<T>) -> Seq<T> {
    children.nw@ + children.ne@ + children.sw@ + children.se@
}

/// The entities without repetition: one for each id that occurs, the first one, by ascending id.
pub open spec fn merges<T: Positioned>(out: Seq<T>, all: Seq<T>) -> bool {
    &&& forall|i: int, j: int|
        0 <= i < j < out.len() ==> (#[trigger] out[i]).key() < (#[trigger] out[j]).key()
    &&& forall|id: u64| #[trigger] holds_id(out, id) <==> holds_id(all, id)
    &&& forall|i: int|
        0 <= i < out.len() ==> #[trigger] out[i] == first_of(all, out[i].key())
}

/// What a table by id holds of the entities that were put into it.
spec fn tabled<T: Positioned>(m: Map<u64, T>, all: Seq<T>) -> bool {
    &&& forall|id: u64| #[trigger] m.contains_key(id) <==> holds_id(all, id)
    &&& forall|id: u64| #[trigger] m.contains_key(id) ==> m[id] == first_of(all, id) && m[id].key() == id
}

proof fn lemma_tabled_push<T: Positioned>(m: Map<u64, T>, all: Seq<T>, e: T)
    requires
        tabled(m, all),
    ensures
        tabled(
            if m.contains_key(e.key()) {
                m
            } else {
                m.insert(e.key(), e)
            },
            all.push(e),
        ),
{
    let next = all.push(e);
    assert(next.drop_last() =~= all);
    assert forall|id: u64| holds_id(next, id) <==> (holds_id(all, id) || id == e.key()) by {
        if holds_id(all, id) {
            let i = choose|i: int| 0 <= i < all.len() && (#[trigger] all[i]).key() == id;
            assert(next[i].key() == id);
        }
        if id == e.key() {
            assert(next[all.len() as int].key() == id);
        }
        if holds_id(next, id) {
            let i = choose|i: int| 0 <= i < next.len() && (#[trigger] next[i]).key() == id;
            if i < all.len() {
                assert(all[i].key() == id);
            }
        }
    }
}

fn put_all<T: Positioned>(m: &mut SortedMap<u64, T>, bucket: Vec<T>, Ghost(before): Ghost<Seq<T>>)
    requires
        old(m).wf(),
        tabled(old(m)@, before),
    ensures
        final(m).wf(),
        tabled(final(m)@, before + bucket@),
{
    let ghost all = bucket@;
    proof {
        assert(all.subrange(0, all.len() as int) =~= all);
        assert(before + all.subrange(0, 0) =~= before);
    }
    for e in rest: bucket
        invariant
            m.wf(),
            rest.seq() == all,
            tabled(m@, before + all.subrange(0, rest.index())),
    {
        let id: u64 = e.entity_id();
        proof {
            let taken = rest.index();
            let seen = before + all.subrange(0, taken);
            assert(e == all[taken]);
            lemma_tabled_push(m@, seen, e);
            assert(before + all.subrange(0, taken + 1) =~= seen.push(e));
        }
        if !m.contains_key(&id) {
            let _ = m.insert(id, e);
        }
    }
}

/// The entities of four children together, each once, by id. Of two with the same id the one of the
/// earlier child stays.
pub fn merge_entities<T: Positioned>(children: Quarters<T>) -> (r: Vec<T>)
    ensures
        merges(r@, gathered(children)),
{
    let Quarters { nw: a, ne: b, sw: c, se: d } = children;
    let mut m: SortedMap<u64, T> = SortedMap::new();
    let ghost none = Seq::<T>::empty();
    proof {
        assert(tabled(m@, none));
        assert(none + a@ =~= a@);
    }
    put_all(&mut m, a, Ghost(none));
    put_all(&mut m, b, Ghost(a@));
    put_all(&mut m, c, Ghost(a@ + b@));
    put_all(&mut m, d, Ghost(a@ + b@ + c@));
    proof {
        let all = a@ + b@ + c@ + d@;
        let keys = m.key_order();
        let out = m.value_order();
        m.lemma_orders();
        assert forall|i: int| 0 <= i < out.len() implies (#[trigger] out[i]).key() == keys[i]
            && out[i] == first_of(all, out[i].key()) by {
            assert(m@.contains_pair(keys[i]@, out[i]));
        }
        assert forall|i: int, j: int| 0 <= i < j < out.len() implies (#[trigger] out[i]).key() < (
        #[trigger] out[j]).key() by {
            crate::order::lemma_ascending_at(keys, i, j);
        }
        assert forall|id: u64| #[trigger] holds_id(out, id) <==> holds_id(all, id) by {
            if holds_id(all, id) {
                assert(m@.contains_key(id));
                assert(crate::order::views(keys).contains(id));
                let i = choose|i: int|
                    0 <= i < crate::order::views(keys).len() && crate::order::views(keys)[i] == id;
                assert(keys[i]@ == id);
                assert(out[i].key() == id);
            }
            if holds_id(out, id) {
                let i = choose|i: int| 0 <= i < out.len() && (#[trigger] out[i]).key() == id;
                assert(m@.contains_pair(keys[i]@, out[i]));
            }
        }
    }
    m.into_values()
}

/// No entity is lost or doubled by a split: the children hold as many as there were.
pub fn is_lossless<T: Positioned>(parent: CellId, entities: Vec<T>) -> (r: bool)
    requires
        parent.valid(),
        parent.depth < MAX_DEPTH,
    ensures
        r,
{
    let n: usize = entities.len();
    let ghost all = entities@;
    let q = split_entities(parent, entities);
    proof {
        law_split_keeps_every_entity(q, parent, all);
    }
    let west: usize = q.nw.len() + q.sw.len();
    let east: usize = q.ne.len() + q.se.len();
    west + east == n
}

/// A split is a partition: the children's entities taken together are the entities that there were,
/// each as often as before.
pub proof fn law_split_keeps_every_entity<T: Positioned>(
    r: Quarters<T>,
    parent: CellId,
    entities: Seq<T>,
)
    requires
        shared_out(r, parent, entities),
    ensures
        gathered(r).to_multiset() == entities.to_multiset(),
        r.nw@.len() + r.ne@.len() + r.sw@.len() + r.se@.len() == entities.len(),
{
    let p0 = of_quarter::<T>(parent, 0);
    let p1 = of_quarter::<T>(parent, 1);
    let p2 = of_quarter::<T>(parent, 2);
    let p3 = of_quarter::<T>(parent, 3);
    lemma_four_filters(entities, p0, p1, p2, p3);
    let a = entities.filter(p0);
    let b = entities.filter(p1);
    let c = entities.filter(p2);
    let d = entities.filter(p3);
    vstd::seq_lib::lemma_multiset_commutative(a + b + c, d);
    vstd::seq_lib::lemma_multiset_commutative(a + b, c);
    vstd::seq_lib::lemma_multiset_commutative(a, b);
    assert(gathered(r).to_multiset() =~= entities.to_multiset());
}

proof fn lemma_four_filters<T>(
    s: Seq<T>,
    p0: spec_fn(T) -> bool,
    p1: spec_fn(T) -> bool,
    p2: spec_fn(T) -> bool,
    p3: spec_fn(T) -> bool,
)
    requires
        forall|e: T|
            #![trigger p0(e)]
            (p0(e) && !p1(e) && !p2(e) && !p3(e)) || (!p0(e) && p1(e) && !p2(e) && !p3(e)) || (
            !p0(e) && !p1(e) && p2(e) && !p3(e)) || (!p0(e) && !p1(e) && !p2(e) && p3(e)),
    ensures
        s.filter(p0).to_multiset().add(s.filter(p1).to_multiset()).add(
            s.filter(p2).to_multiset(),
        ).add(s.filter(p3).to_multiset()) == s.to_multiset(),
        s.filter(p0).len() + s.filter(p1).len() + s.filter(p2).len() + s.filter(p3).len() == s.len(),
    decreases s.len(),
{
    broadcast use vstd::seq_lib::group_to_multiset_ensures;

    reveal(Seq::filter);
    if s.len() > 0 {
        let rest = s.drop_last();
        let e = s.last();
        lemma_four_filters(rest, p0, p1, p2, p3);
        assert(s =~= rest.push(e));
        lemma_filter_push(rest, e, p0);
        lemma_filter_push(rest, e, p1);
        lemma_filter_push(rest, e, p2);
        lemma_filter_push(rest, e, p3);
        assert(p0(e) || p1(e) || p2(e) || p3(e));
        assert(s.filter(p0).to_multiset().add(s.filter(p1).to_multiset()).add(
            s.filter(p2).to_multiset(),
        ).add(s.filter(p3).to_multiset()) =~= s.to_multiset());
    } else {
        assert(s.filter(p0).to_multiset().add(s.filter(p1).to_multiset()).add(
            s.filter(p2).to_multiset(),
        ).add(s.filter(p3).to_multiset()) =~= s.to_multiset());
    }
}

/// No id occurs twice.
pub open spec fn distinct_ids<T: Positioned>(s: Seq<T>) -> bool {
    forall|i: int, j: int|
        0 <= i < j < s.len() ==> (#[trigger] s[i]).key() != (#[trigger] s[j]).key()
}

/// Gathering is the inverse of sharing out: where no two entities have the same id, merging the children
/// of a split gives back the entities that there were, each once.
pub proof fn law_merge_undoes_split<T: Positioned>(
    r: Quarters<T>,
    parent: CellId,
    entities: Seq<T>,
    out: Seq<T>,
)
    requires
        shared_out(r, parent, entities),
        distinct_ids(entities),
        merges(out, gathered(r)),
    ensures
        out.to_multiset() == entities.to_multiset(),
        out.len() == entities.len(),
{
    let all = gathered(r);
    law_split_keeps_every_entity(r, parent, entities);
    lemma_multiset_members(all, entities);
    assert forall|x: T| out.contains(x) <==> entities.contains(x) by {
        if out.contains(x) {
            let i = choose|i: int| 0 <= i < out.len() && out[i] == x;
            assert(holds_id(out, out[i].key()));
            assert(holds_id(all, x.key()));
            lemma_first_of(all, x.key());
            assert(all.contains(x));
        }
        if entities.contains(x) {
            assert(all.contains(x));
            let k = choose|k: int| 0 <= k < all.len() && all[k] == x;
            assert(all[k].key() == x.key());
            assert(holds_id(all, x.key()));
            assert(holds_id(out, x.key()));
            let i = choose|i: int| 0 <= i < out.len() && (#[trigger] out[i]).key() == x.key();
            lemma_first_of(all, x.key());
            let y = out[i];
            assert(all.contains(y) && y.key() == x.key());
            let a = choose|a: int| 0 <= a < entities.len() && entities[a] == x;
            assert(entities.contains(y));
            let b = choose|b: int| 0 <= b < entities.len() && entities[b] == y;
            if a < b {
                assert(entities[a].key() != entities[b].key());
            } else if b < a {
                assert(entities[b].key() != entities[a].key());
            }
            assert(x == y);
        }
    }
    assert(out.no_duplicates());
    assert(entities.no_duplicates()) by {
        assert forall|i: int, j: int|
            0 <= i < entities.len() && 0 <= j < entities.len() && i != j implies entities[i]
            != entities[j] by {
            if i < j {
                assert(entities[i].key() != entities[j].key());
            } else {
                assert(entities[j].key() != entities[i].key());
            }
        }
    }
    lemma_same_members(out, entities);
}

proof fn lemma_multiset_members<T>(a: Seq<T>, b: Seq<T>)
    requires
        a.to_multiset() == b.to_multiset(),
    ensures
        forall|x: T| #[trigger] a.contains(x) <==> b.contains(x),
{
    assert forall|x: T| #[trigger] a.contains(x) <==> b.contains(x) by {
        vstd::seq_lib::to_multiset_contains(a, x);
        vstd::seq_lib::to_multiset_contains(b, x);
    }
}

proof fn lemma_same_members<T>(a: Seq<T>, b: Seq<T>)
    requires
        a.no_duplicates(),
        b.no_duplicates(),
        forall|x: T| a.contains(x) <==> b.contains(x),
    ensures
        a.to_multiset() == b.to_multiset(),
        a.len() == b.len(),
{
    broadcast use vstd::seq_lib::group_to_multiset_ensures;

    a.lemma_multiset_has_no_duplicates();
    b.lemma_multiset_has_no_duplicates();
    assert forall|x: T| a.to_multiset().count(x) == b.to_multiset().count(x) by {
        assert(a.contains(x) <==> a.to_multiset().count(x) > 0);
        assert(b.contains(x) <==> b.to_multiset().count(x) > 0);
    }
    assert(a.to_multiset() =~= b.to_multiset());
    assert(a.to_multiset().len() == a.len());
    assert(b.to_multiset().len() == b.len());
}

proof fn lemma_first_of<T: Positioned>(s: Seq<T>, id: u64)
    requires
        holds_id(s, id),
    ensures
        s.contains(first_of(s, id)),
        first_of(s, id).key() == id,
    decreases s.len(),
{
    let rest = s.drop_last();
    let i = choose|i: int| 0 <= i < s.len() && (#[trigger] s[i]).key() == id;
    if holds_id(rest, id) {
        lemma_first_of(rest, id);
        let k = choose|k: int| 0 <= k < rest.len() && rest[k] == first_of(rest, id);
        assert(s[k] == first_of(rest, id));
    } else {
        if i < rest.len() {
            assert(rest[i].key() == id);
        }
        assert(s[s.len() - 1] == s.last());
    }
}

/// Of several entities with one id the one that was gathered first stays.
pub proof fn law_first_entity_stays<T: Positioned>(out: Seq<T>, all: Seq<T>, i: int)
    requires
        merges(out, all),
        0 <= i < all.len(),
        forall|j: int| 0 <= j < i ==> (#[trigger] all[j]).key() != all[i].key(),
    ensures
        exists|k: int| 0 <= k < out.len() && #[trigger] out[k] == all[i],
{
    let id = all[i].key();
    assert(holds_id(all, id));
    assert(holds_id(out, id));
    let k = choose|k: int| 0 <= k < out.len() && (#[trigger] out[k]).key() == id;
    lemma_first_of_is_first(all, id, i);
    assert(out[k] == first_of(all, out[k].key()));
}

proof fn lemma_first_of_is_first<T: Positioned>(s: Seq<T>, id: u64, i: int)
    requires
        0 <= i < s.len(),
        s[i].key() == id,
        forall|j: int| 0 <= j < i ==> (#[trigger] s[j]).key() != id,
    ensures
        first_of(s, id) == s[i],
    decreases s.len(),
{
    let front = s.drop_last();
    if i < s.len() - 1 {
        assert(front[i] == s[i]);
        assert(holds_id(front, id));
        assert forall|j: int| 0 <= j < i implies (#[trigger] front[j]).key() != id by {
            assert(front[j] == s[j]);
        }
        lemma_first_of_is_first(front, id, i);
    } else if holds_id(front, id) {
        let j = choose|j: int| 0 <= j < front.len() && (#[trigger] front[j]).key() == id;
        assert(front[j] == s[j]);
    }
}

} // verus!
