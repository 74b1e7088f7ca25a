//! A stable sort, and what is known of its result.
use vstd::prelude::*;

verus! {

/// A strict weak order on a type: two values may tie, and ties are an equivalence.
pub trait Ranked: Sized {
    spec fn before(&self, other: &Self) -> bool;

    fn goes_before(&self, other: &Self) -> (r: bool)
        ensures
            r == self.before(other),
    ;

    proof fn before_asymmetric(a: &Self, b: &Self)
        requires
            a.before(b),
        ensures
            !b.before(a),
    ;

    /// What does not go before a value that does not go before a third does not go before the third.
    proof fn before_negatively_transitive(a: &Self, b: &Self, c: &Self)
        requires
            !a.before(b),
            !b.before(c),
        ensures
            !a.before(c),
    ;
}

/// No item goes before one that stands earlier.
pub open spec fn in_order<T: Ranked>(s: Seq<T>) -> bool {
    forall|i: int, j: int|
        #![trigger s[i], s[j]]
        0 <= i < j < s.len() ==> !s[j].before(&s[i])
}

/// Neither of the two goes before the other.
pub open spec fn tied<T: Ranked>(a: T, b: T) -> bool {
    !a.before(&b) && !b.before(&a)
}

/// Where a new item goes: behind the last item that it does not go before.
pub open spec fn slot<T: Ranked>(s: Seq<T>, x: T) -> int
    decreases s.len(),
{
    if s.len() == 0 {
        0
    } else if x.before(&s.last()) {
        slot(s.drop_last(), x)
    } else {
        s.len() as int
    }
}

/// The items in order, those that tie in the order in which they came.
pub open spec fn stably_sorted<T: Ranked>(s: Seq<T>) -> Seq<T>
    decreases s.len(),
{
    if s.len() == 0 {
        Seq::empty()
    } else {
        let rest = stably_sorted(s.drop_last());
        rest.insert(slot(rest, s.last()), s.last())
    }
}

/// What stands before the slot does not go behind the new item, what stands after it does.
pub proof fn lemma_slot<T: Ranked>(s: Seq<T>, x: T)
    requires
        in_order(s),
    ensures
        0 <= slot(s, x) <= s.len(),
        forall|i: int| #![trigger s[i]] 0 <= i < slot(s, x) ==> !x.before(&s[i]),
        forall|i: int| #![trigger s[i]] slot(s, x) <= i < s.len() ==> x.before(&s[i]),
    decreases s.len(),
{
    if s.len() > 0 {
        let last = s.last();
        if x.before(&last) {
            let rest = s.drop_last();
            assert(in_order(rest)) by {
                assert forall|i: int, j: int|
                    #![trigger rest[i], rest[j]]
                    0 <= i < j < rest.len() implies !rest[j].before(&rest[i]) by {
                    assert(rest[i] == s[i] && rest[j] == s[j]);
                }
            }
            lemma_slot(rest, x);
            assert forall|i: int| #![trigger s[i]] 0 <= i < slot(s, x) implies !x.before(
                &s[i],
            ) by {
                assert(rest[i] == s[i]);
            }
            assert forall|i: int| #![trigger s[i]] slot(s, x) <= i < s.len() implies x.before(
                &s[i],
            ) by {
                if i < rest.len() {
                    assert(rest[i] == s[i]);
                }
            }
        } else {
            assert forall|i: int| #![trigger s[i]] 0 <= i < s.len() implies !x.before(&s[i]) by {
                if i < s.len() - 1 {
                    assert(!s[s.len() - 1].before(&s[i]));
                    T::before_negatively_transitive(&x, &last, &s[i]);
                }
            }
        }
    }
}

proof fn lemma_slotted_in_order<T: Ranked>(s: Seq<T>, x: T)
    requires
        in_order(s),
    ensures
        in_order(s.insert(slot(s, x), x)),
{
    lemma_slot(s, x);
    let at = slot(s, x);
    let out = s.insert(at, x);
    assert forall|i: int, j: int|
        #![trigger out[i], out[j]]
        0 <= i < j < out.len() implies !out[j].before(&out[i]) by {
        if i < at && j < at {
            assert(!s[j].before(&s[i]));
        } else if i > at {
            assert(!s[j - 1].before(&s[i - 1]));
        } else if i == at {
            assert(x.before(&s[j - 1]));
            T::before_asymmetric(&x, &s[j - 1]);
        } else if j == at {
            assert(!x.before(&s[i]));
        } else {
            assert(!s[j - 1].before(&s[i]));
        }
    }
}

/// The sorted items are in order, and are the same items.
pub proof fn lemma_stably_sorted<T: Ranked>(s: Seq<T>)
    ensures
        in_order(stably_sorted(s)),
        stably_sorted(s).len() == s.len(),
        stably_sorted(s).to_multiset() == s.to_multiset(),
    decreases s.len(),
{
    broadcast use vstd::seq_lib::group_to_multiset_ensures;

    if s.len() > 0 {
        let rest = stably_sorted(s.drop_last());
        lemma_stably_sorted(s.drop_last());
        lemma_slot(rest, s.last());
        lemma_slotted_in_order(rest, s.last());
        assert(s =~= s.drop_last().push(s.last()));
        assert(stably_sorted(s).to_multiset() =~= s.to_multiset());
    } else {
        assert(stably_sorted(s) =~= s);
    }
}

pub proof fn lemma_filter_push<T>(s: Seq<T>, x: T, p: spec_fn(T) -> bool)
    ensures
        s.push(x).filter(p) == (if p(x) {
            s.filter(p).push(x)
        } else {
            s.filter(p)
        }),
{
    reveal(Seq::filter);
    assert(s.push(x).drop_last() =~= s);
}

pub proof fn lemma_filter_none<T>(s: Seq<T>, p: spec_fn(T) -> bool)
    requires
        forall|i: int| 0 <= i < s.len() ==> !p(#[trigger] s[i]),
    ensures
        s.filter(p) == Seq::<T>::empty(),
    decreases s.len(),
{
    reveal(Seq::filter);
    if s.len() > 0 {
        lemma_filter_none(s.drop_last(), p);
    }
}

/// A filter keeps what stood in the sequence and passes.
pub proof fn lemma_filter_holds<T>(s: Seq<T>, p: spec_fn(T) -> bool, x: T)
    ensures
        s.filter(p).contains(x) <==> s.contains(x) && p(x),
    decreases s.len(),
{
    reveal(Seq::filter);
    if s.len() > 0 {
        let rest = s.drop_last();
        let last = s.last();
        lemma_filter_holds(rest, p, x);
        assert(s =~= rest.push(last));
        lemma_filter_push(rest, last, p);
        assert(s.contains(x) <==> rest.contains(x) || x == last) by {
            if rest.contains(x) {
                let i = choose|i: int| 0 <= i < rest.len() && rest[i] == x;
                assert(s[i] == x);
            }
            if x == last {
                assert(s[s.len() - 1] == x);
            }
            if s.contains(x) {
                let i = choose|i: int| 0 <= i < s.len() && s[i] == x;
                if i < rest.len() {
                    assert(rest[i] == x);
                }
            }
        }
        if p(last) {
            let kept = rest.filter(p);
            let all = kept.push(last);
            assert(all.contains(x) <==> kept.contains(x) || x == last) by {
                if kept.contains(x) {
                    let i = choose|i: int| 0 <= i < kept.len() && kept[i] == x;
                    assert(all[i] == x);
                }
                if x == last {
                    assert(all[kept.len() as int] == x);
                }
                if all.contains(x) {
                    let i = choose|i: int| 0 <= i < all.len() && all[i] == x;
                    if i < kept.len() {
                        assert(kept[i] == x);
                    }
                }
            }
        }
    }
}

/// What is in order already stays as it is.
pub proof fn lemma_sorted_already<T: Ranked>(s: Seq<T>)
    requires
        in_order(s),
    ensures
        stably_sorted(s) == s,
    decreases s.len(),
{
    if s.len() > 0 {
        let rest = s.drop_last();
        assert forall|i: int, j: int|
            #![trigger rest[i], rest[j]]
            0 <= i < j < rest.len() implies !rest[j].before(&rest[i]) by {
            assert(rest[i] == s[i] && rest[j] == s[j]);
        }
        lemma_sorted_already(rest);
        if rest.len() > 0 {
            assert(rest.last() == s[s.len() - 2]);
            assert(s.last() == s[s.len() - 1]);
        }
        assert(rest.insert(rest.len() as int, s.last()) =~= s);
    } else {
        assert(stably_sorted(s) =~= s);
    }
}

/// Sorting keeps the items: a value stands in the result exactly when it stood in the input.
pub proof fn lemma_sorted_contains<T: Ranked>(s: Seq<T>, x: T)
    ensures
        stably_sorted(s).contains(x) <==> s.contains(x),
{
    broadcast use vstd::seq_lib::group_to_multiset_ensures;

    lemma_stably_sorted(s);
    assert(stably_sorted(s).to_multiset().count(x) > 0 <==> s.to_multiset().count(x) > 0);
}

/// Items that tie with `x` come out of the sort in the order in which they went in.
pub proof fn law_sort_is_stable<T: Ranked>(s: Seq<T>, x: T)
    ensures
        stably_sorted(s).filter(|y: T| tied(x, y)) == s.filter(|y: T| tied(x, y)),
    decreases s.len(),
{
    let p = |y: T| tied(x, y);
    if s.len() > 0 {
        let rest = stably_sorted(s.drop_last());
        let last = s.last();
        law_sort_is_stable(s.drop_last(), x);
        lemma_stably_sorted(s.drop_last());
        lemma_slot(rest, last);
        let at = slot(rest, last);
        let head = rest.subrange(0, at);
        let tail = rest.subrange(at, rest.len() as int);
        assert(rest =~= head + tail);
        assert(stably_sorted(s) =~= head.push(last) + tail);
        Seq::filter_distributes_over_add(head, tail, p);
        Seq::filter_distributes_over_add(head.push(last), tail, p);
        lemma_filter_push(head, last, p);
        assert(s =~= s.drop_last().push(last));
        lemma_filter_push(s.drop_last(), last, p);
        if p(last) {
            assert forall|i: int| 0 <= i < tail.len() implies !p(#[trigger] tail[i]) by {
                assert(tail[i] == rest[at + i]);
                assert(last.before(&tail[i]));
                if !x.before(&tail[i]) {
                    T::before_negatively_transitive(&last, &x, &tail[i]);
                }
            }
            lemma_filter_none(tail, p);
        }
    } else {
        assert(stably_sorted(s) =~= s);
    }
}

/// Sorts a vector stably.
pub fn sort_stably<T: Ranked>(items: Vec<T>) -> (r: Vec<T>)
    ensures
        r@ == stably_sorted(items@),
{
    let mut out: Vec<T> = Vec::new();
    let ghost all = items@;
    assert(all.subrange(0, 0) =~= Seq::<T>::empty());
    for x in rest: items
        invariant
            rest.seq() == all,
            out@ == stably_sorted(all.subrange(0, rest.index())),
    {
        let ghost taken = rest.index();
        let mut at: usize = out.len();
        let ghost sorted = out@;
        proof {
            lemma_stably_sorted(all.subrange(0, taken));
            assert(sorted.subrange(0, sorted.len() as int) =~= sorted);
        }
        while at > 0 && x.goes_before(&out[at - 1])
            invariant
                0 <= at <= out@.len(),
                out@ == sorted,
                slot(sorted.subrange(0, at as int), x) == slot(sorted, x),
            decreases at,
        {
            proof {
                let part = sorted.subrange(0, at as int);
                assert(part.drop_last() =~= sorted.subrange(0, at - 1));
            }
            at = at - 1;
        }
        proof {
            let part = sorted.subrange(0, at as int);
            if at > 0 {
                assert(part.last() == sorted[at - 1]);
            }
            assert(slot(sorted, x) == at);
            let next = all.subrange(0, taken + 1);
            assert(next.drop_last() =~= all.subrange(0, taken));
            assert(next.last() == x);
        }
        out.insert(at, x);
    }
    assert(all.subrange(0, all.len() as int) =~= all);
    out
}

/// Where only equal items tie, the order in which the items come does not matter.
pub proof fn law_sort_order_independent<T: Ranked>(a: Seq<T>, b: Seq<T>)
    requires
        a.to_multiset() == b.to_multiset(),
        forall|x: T, y: T| a.contains(x) && a.contains(y) && #[trigger] tied(x, y) ==> x == y,
    ensures
        stably_sorted(a) == stably_sorted(b),
{
    lemma_stably_sorted(a);
    lemma_stably_sorted(b);
    assert forall|x: T, y: T|
        stably_sorted(a).contains(x) && stably_sorted(a).contains(y) && #[trigger] tied(
            x,
            y,
        ) implies x == y by {
        lemma_sorted_contains(a, x);
        lemma_sorted_contains(a, y);
    }
    lemma_in_order_unique(stably_sorted(a), stably_sorted(b));
}

proof fn lemma_in_order_unique<T: Ranked>(p: Seq<T>, q: Seq<T>)
    requires
        in_order(p),
        in_order(q),
        p.to_multiset() == q.to_multiset(),
        forall|x: T, y: T| p.contains(x) && p.contains(y) && #[trigger] tied(x, y) ==> x == y,
    ensures
        p == q,
    decreases p.len(),
{
    broadcast use vstd::seq_lib::group_to_multiset_ensures;

    assert(p.len() == p.to_multiset().len());
    assert(q.len() == q.to_multiset().len());
    if p.len() == 0 {
        assert(p =~= q);
    } else {
        let x = p.last();
        let y = q.last();
        assert(p.contains(x));
        assert(q.contains(y));
        assert(p.to_multiset().count(y) > 0);
        assert(q.to_multiset().count(x) > 0);
        let i = choose|i: int| 0 <= i < p.len() && p[i] == y;
        let j = choose|j: int| 0 <= j < q.len() && q[j] == x;
        assert(!x.before(&y)) by {
            if x.before(&y) {
                T::before_asymmetric(&x, &y);
                if i < p.len() - 1 {
                    assert(!p[p.len() - 1].before(&p[i]));
                } else {
                    assert(x == y);
                }
            }
        }
        assert(!y.before(&x)) by {
            if y.before(&x) {
                T::before_asymmetric(&y, &x);
                if j < q.len() - 1 {
                    assert(!q[q.len() - 1].before(&q[j]));
                } else {
                    assert(x == y);
                }
            }
        }
        assert(tied(x, y));
        assert(x == y);
        let p1 = p.drop_last();
        let q1 = q.drop_last();
        assert(p =~= p1.push(x));
        assert(q =~= q1.push(x));
        assert(p1.to_multiset() =~= p.to_multiset().remove(x));
        assert(q1.to_multiset() =~= q.to_multiset().remove(x));
        assert(in_order(p1)) by {
            assert forall|a: int, b: int|
                #![trigger p1[a], p1[b]]
                0 <= a < b < p1.len() implies !p1[b].before(&p1[a]) by {
                assert(!p[b].before(&p[a]));
            }
        }
        assert(in_order(q1)) by {
            assert forall|a: int, b: int|
                #![trigger q1[a], q1[b]]
                0 <= a < b < q1.len() implies !q1[b].before(&q1[a]) by {
                assert(!q[b].before(&q[a]));
            }
        }
        assert forall|u: T, v: T|
            p1.contains(u) && p1.contains(v) && #[trigger] tied(u, v) implies u == v by {
            let a = choose|a: int| 0 <= a < p1.len() && p1[a] == u;
            let b = choose|b: int| 0 <= b < p1.len() && p1[b] == v;
            assert(p[a] == u && p[b] == v);
        }
        lemma_in_order_unique(p1, q1);
    }
}

/// The order of two items depends on what they show alone.
pub open spec fn ranks_by_view<T: Ranked + View>() -> bool {
    forall|x: T, y: T, u: T, v: T|
        #![trigger x.before(&y), u.before(&v)]
        x@ == u@ && y@ == v@ ==> x.before(&y) == u.before(&v)
}

/// Where items that tie show the same, what the sorted items show does not depend on the order in
/// which they came.
pub proof fn law_sort_shows_alike<T: Ranked + View>(a: Seq<T>, b: Seq<T>)
    requires
        ranks_by_view::<T>(),
        crate::order::views(a).to_multiset() == crate::order::views(b).to_multiset(),
        forall|x: T, y: T| a.contains(x) && a.contains(y) && #[trigger] tied(x, y) ==> x@ == y@,
    ensures
        crate::order::views(stably_sorted(a)) == crate::order::views(stably_sorted(b)),
{
    lemma_stably_sorted(a);
    lemma_stably_sorted(b);
    let p = stably_sorted(a);
    let q = stably_sorted(b);
    lemma_views_permuted(p, a);
    lemma_views_permuted(q, b);
    assert forall|x: T, y: T|
        p.contains(x) && p.contains(y) && #[trigger] tied(x, y) implies x@ == y@ by {
        lemma_sorted_contains(a, x);
        lemma_sorted_contains(a, y);
    }
    lemma_in_order_shows_alike(p, q);
}

/// What a permutation of items shows is a permutation of what they show.
pub proof fn lemma_views_permuted<T: View>(p: Seq<T>, a: Seq<T>)
    requires
        p.to_multiset() == a.to_multiset(),
    ensures
        crate::order::views(p).to_multiset() == crate::order::views(a).to_multiset(),
    decreases p.len(),
{
    broadcast use vstd::seq_lib::group_to_multiset_ensures;

    let vp = crate::order::views(p);
    let va = crate::order::views(a);
    assert(p.len() == p.to_multiset().len() && a.len() == a.to_multiset().len());
    if p.len() == 0 {
        assert(vp =~= va);
    } else {
        let x = p.last();
        assert(p.contains(x));
        assert(a.to_multiset().count(x) > 0);
        let j = choose|j: int| 0 <= j < a.len() && a[j] == x;
        assert(p =~= p.drop_last().push(x));
        assert(p.drop_last().to_multiset() =~= p.to_multiset().remove(x));
        lemma_views_permuted(p.drop_last(), a.remove(j));
        assert(crate::order::views(p.drop_last()) =~= vp.drop_last());
        assert(crate::order::views(a.remove(j)) =~= va.remove(j));
        assert(vp =~= vp.drop_last().push(x@));
        assert(va[j] == x@);
        assert(va.contains(x@));
        assert(va.to_multiset() =~= va.remove(j).to_multiset().insert(x@));
        assert(vp.to_multiset() =~= va.to_multiset());
    }
}

proof fn lemma_in_order_shows_alike<T: Ranked + View>(p: Seq<T>, q: Seq<T>)
    requires
        ranks_by_view::<T>(),
        in_order(p),
        in_order(q),
        crate::order::views(p).to_multiset() == crate::order::views(q).to_multiset(),
        forall|x: T, y: T| p.contains(x) && p.contains(y) && #[trigger] tied(x, y) ==> x@ == y@,
    ensures
        crate::order::views(p) == crate::order::views(q),
    decreases p.len(),
{
    broadcast use vstd::seq_lib::group_to_multiset_ensures;

    let vp = crate::order::views(p);
    let vq = crate::order::views(q);
    assert(vp.len() == vp.to_multiset().len() && vq.len() == vq.to_multiset().len());
    if p.len() == 0 {
        assert(vp =~= vq);
    } else {
        let x = p.last();
        let y = q.last();
        assert(vp[vp.len() - 1] == x@ && vq[vq.len() - 1] == y@);
        assert(vp.contains(x@) && vq.contains(y@));
        assert(vp.to_multiset().count(y@) > 0);
        assert(vq.to_multiset().count(x@) > 0);
        assert(vp.contains(y@) && vq.contains(x@));
        let i = choose|i: int| 0 <= i < vp.len() && vp[i] == y@;
        let j = choose|j: int| 0 <= j < vq.len() && vq[j] == x@;
        let y2 = p[i];
        let x2 = q[j];
        assert(y2@ == y@ && x2@ == x@);
        assert(p.contains(x) && p.contains(y2));
        assert(!x.before(&y2)) by {
            if i < p.len() - 1 {
                assert(!p[p.len() - 1].before(&p[i]));
            } else if x.before(&y2) {
                T::before_asymmetric(&x, &y2);
            }
        }
        assert(!y.before(&x2)) by {
            if j < q.len() - 1 {
                assert(!q[q.len() - 1].before(&q[j]));
            } else if y.before(&x2) {
                T::before_asymmetric(&y, &x2);
            }
        }
        assert(y2.before(&x) == y.before(&x2));
        assert(tied(x, y2));
        assert(x@ == y@);
        let p1 = p.drop_last();
        let q1 = q.drop_last();
        assert(crate::order::views(p1) =~= vp.drop_last());
        assert(crate::order::views(q1) =~= vq.drop_last());
        assert(vp =~= vp.drop_last().push(x@));
        assert(vq =~= vq.drop_last().push(x@));
        assert(vp.drop_last().to_multiset() =~= vp.to_multiset().remove(x@));
        assert(vq.drop_last().to_multiset() =~= vq.to_multiset().remove(x@));
        assert(in_order(p1)) by {
            assert forall|a: int, b: int|
                #![trigger p1[a], p1[b]]
                0 <= a < b < p1.len() implies !p1[b].before(&p1[a]) by {
                assert(!p[b].before(&p[a]));
            }
        }
        assert(in_order(q1)) by {
            assert forall|a: int, b: int|
                #![trigger q1[a], q1[b]]
                0 <= a < b < q1.len() implies !q1[b].before(&q1[a]) by {
                assert(!q[b].before(&q[a]));
            }
        }
        assert forall|u: T, v: T|
            p1.contains(u) && p1.contains(v) && #[trigger] tied(u, v) implies u@ == v@ by {
            let a = choose|a: int| 0 <= a < p1.len() && p1[a] == u;
            let b = choose|b: int| 0 <= b < p1.len() && p1[b] == v;
            assert(p[a] == u && p[b] == v);
        }
        lemma_in_order_shows_alike(p1, q1);
    }
}

} // verus!
